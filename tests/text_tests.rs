use regex::Regex;
use srt::{check, count_blocks, prepare};

const FIVE_BLOCKS: &str = r"1
00:01:38,958 --> 00:01:49,609
Firs line

2
00:04:19,604 --> 00:04:20,970
<i>Your Grace.</i>

3
00:04:21,072 --> 00:04:24,707
The trial will be
getting under way soon.

4
00:04:57,141 --> 00:04:58,541
You got my money?

5
00:04:58,643 --> 00:05:00,943
Later.
Go away.

    
 
";

#[test]
fn _check() {
    let mut test_srt = FIVE_BLOCKS.to_owned();
    assert!(!check(&test_srt));

    test_srt = prepare(&test_srt);
    let num_subs = count_blocks(&test_srt);
    assert_eq!(num_subs, 5);
    assert!(check(&test_srt));

    test_srt.pop();
    let num_subs = count_blocks(&test_srt);
    assert_eq!(num_subs, 4);
}

#[test]
fn _prepare() {
    let test_srt = "1\n00:01:38,958 --> 00:01:49,609\nFirs line\n\n2\n00:04:19,604 --> 00:04:20,970\n<i>Your Grace.</i>\n\n".to_owned();
    assert!(!check(&test_srt));

    let mut prepaired_test_srt = prepare(&test_srt);
    let num_subs = count_blocks(&prepaired_test_srt);
    assert_eq!(num_subs, 2);
    assert!(check(&prepaired_test_srt));

    let another_prepaired_test_srt = test_srt.replace("\n", "\r\n");
    assert_eq!(prepaired_test_srt, another_prepaired_test_srt);

    let mut additional_test_srt = "3\n00:04:21,072 --> 00:04:24,707\nThird line\n\n".to_owned();
    additional_test_srt = prepare(&additional_test_srt);

    prepaired_test_srt += &additional_test_srt;
    let num_subs = count_blocks(&prepaired_test_srt);
    assert_eq!(num_subs, 3);
}

#[test]
fn prepare_ends_with_one_blank_line() {
    assert_eq!(prepare(""), "\r\n\r\n");
    assert_eq!(prepare("abc"), "abc\r\n\r\n");
    assert_eq!(prepare("abc \t\r\n\n \u{3000}"), "abc\r\n\r\n");
    assert_eq!(prepare("abc\r\n\r\n"), "abc\r\n\r\n");
}

#[test]
fn prepare_writes_every_line_ending_as_crlf() {
    assert_eq!(prepare("a\nb\r\nc\rd\r\re"), "a\r\nb\r\nc\r\nd\r\n\r\ne\r\n\r\n");
    assert_eq!(prepare("a\n\rb"), "a\r\n\r\nb\r\n\r\n");
}

#[test]
fn prepare_is_idempotent() {
    let once = prepare(FIVE_BLOCKS);
    assert_eq!(prepare(&once), once);
}

fn srt_pattern() -> Regex {
    Regex::new(
        r"(?x)
        (\d+)
        \r\n
        (\d{2}):(\d{2}):(\d{2}),(\d{3})
        \s-->\s
        (\d{2}):(\d{2}):(\d{2}),(\d{3})
        \r\n
        ([\S\s]*?)
        (?:\r\n){2}?",
    )
    .unwrap()
}

#[test]
fn blocks_are_found_as_the_regular_expression_finds_them() {
    let pattern = srt_pattern();
    let prepared = prepare(FIVE_BLOCKS);
    let mut truncated = prepared.clone();
    truncated.pop();
    let samples = [
        prepared.clone(),
        truncated,
        FIVE_BLOCKS.to_owned(),
        "x12\r\n00:00:01,000 --> 00:00:02,000\r\nhi\r\n\r\n".to_owned(),
        "7\r\n00:00:01,000\t-->\t00:00:02,000\r\n\r\n\r\n".to_owned(),
        "1\r\n00:00:01,000 --> 00:00:02,000\r\na\r\n\r\n\r\n\r\n2\r\n00:00:03,000 --> 00:00:04,000\r\nb\r\n\r\n".to_owned(),
        "1\r\n0:00:01,000 --> 00:00:02,000\r\na\r\n\r\n".to_owned(),
        "junk 1\r\n00:00:01,000 --> 00:00:02,000\r\ntext\r\nmore\r\n\r\ntail".to_owned(),
        String::new(),
    ];
    for sample in samples.iter() {
        assert_eq!(count_blocks(sample), pattern.captures_iter(sample).count(), "{:?}", sample);
        assert_eq!(check(sample), pattern.is_match(sample), "{:?}", sample);
    }
}
