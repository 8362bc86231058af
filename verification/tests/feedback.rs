use wordle_assist::feedback::{
    parse_feedback, read_round, FeedbackCode, MalformedInput, Round, SEPARATOR,
};
use wordle_assist::text::{chars_of, find_field_end, string_of, trim};
use wordle_assist::word::Candidate;

fn feedback_round(word: &str, codes: [FeedbackCode; 5]) -> Round {
    Round { guess: Candidate::new(word).unwrap(), codes }
}

#[test]
fn digits_stand_for_codes() {
    assert_eq!(FeedbackCode::from_digit('0'), Some(FeedbackCode::Absent));
    assert_eq!(FeedbackCode::from_digit('1'), Some(FeedbackCode::Partial));
    assert_eq!(FeedbackCode::from_digit('2'), Some(FeedbackCode::Exact));
    assert_eq!(FeedbackCode::from_digit('3'), None);
    assert_eq!(FeedbackCode::from_digit('a'), None);
    assert_eq!(FeedbackCode::from_digit(' '), None);
}

#[test]
fn parse_reads_word_and_codes() {
    assert_eq!(SEPARATOR, '-');
    let expected = feedback_round(
        "crane",
        [
            FeedbackCode::Absent,
            FeedbackCode::Exact,
            FeedbackCode::Absent,
            FeedbackCode::Partial,
            FeedbackCode::Absent,
        ],
    );
    assert_eq!(parse_feedback("crane-02010"), Ok(expected));
}

#[test]
fn parse_drops_white_space_around_the_line() {
    let expected = parse_feedback("crane-02010");
    assert!(expected.is_ok());
    assert_eq!(parse_feedback("crane-02010\n"), expected);
    assert_eq!(parse_feedback("  crane-02010\r\n"), expected);
    assert_eq!(parse_feedback("\t crane-02010 \u{a0}"), expected);
}

#[test]
fn parse_keeps_white_space_inside_the_line() {
    assert_eq!(parse_feedback("crane -02010"), Err(MalformedInput::WordLength));
    assert_eq!(parse_feedback("crane- 02010"), Err(MalformedInput::CodesLength));
    assert_eq!(parse_feedback("cr ne-02010").map(|r| r.guess.to_string()), Ok("cr ne".to_string()));
}

#[test]
fn parse_refuses_a_line_without_hyphen() {
    assert_eq!(parse_feedback("crane02010"), Err(MalformedInput::MissingSeparator));
    assert_eq!(parse_feedback(""), Err(MalformedInput::MissingSeparator));
    assert_eq!(parse_feedback("   \n"), Err(MalformedInput::MissingSeparator));
    assert_eq!(parse_feedback("crane"), Err(MalformedInput::MissingSeparator));
}

#[test]
fn parse_refuses_four_codes() {
    assert_eq!(parse_feedback("crane-0201"), Err(MalformedInput::CodesLength));
    assert_eq!(parse_feedback("crane-020100"), Err(MalformedInput::CodesLength));
    assert_eq!(parse_feedback("crane-"), Err(MalformedInput::CodesLength));
}

#[test]
fn parse_refuses_a_word_of_the_wrong_length() {
    assert_eq!(parse_feedback("cran-02010"), Err(MalformedInput::WordLength));
    assert_eq!(parse_feedback("cranes-02010"), Err(MalformedInput::WordLength));
    assert_eq!(parse_feedback("-02010"), Err(MalformedInput::WordLength));
}

#[test]
fn parse_refuses_an_unknown_code() {
    assert_eq!(parse_feedback("crane-02310"), Err(MalformedInput::UnknownCode));
    assert_eq!(parse_feedback("crane-0201x"), Err(MalformedInput::UnknownCode));
    assert_eq!(parse_feedback("crane-92010"), Err(MalformedInput::UnknownCode));
}

#[test]
fn parse_reports_the_first_fault() {
    assert_eq!(parse_feedback("cran-0201"), Err(MalformedInput::WordLength));
    assert_eq!(parse_feedback("crane-9201"), Err(MalformedInput::CodesLength));
}

#[test]
fn parse_does_not_read_past_a_second_hyphen() {
    let expected = parse_feedback("crane-02010");
    assert_eq!(parse_feedback("crane-02010-anything"), expected);
    assert_eq!(parse_feedback("crane-02010-"), expected);
    assert_eq!(parse_feedback("crane-0201-0"), Err(MalformedInput::CodesLength));
}

#[test]
fn read_round_takes_the_text_as_it_is() {
    let plain = chars_of("slate-22222");
    assert_eq!(read_round(&plain), Ok(feedback_round("slate", [FeedbackCode::Exact; 5])));
    let padded = chars_of(" slate-22222");
    assert_eq!(read_round(&padded), Err(MalformedInput::WordLength));
    let ended = chars_of("slate-22222\n");
    assert_eq!(read_round(&ended), Err(MalformedInput::CodesLength));
}

#[test]
fn chars_and_strings_convert_both_ways() {
    let chars = chars_of("crâne-0");
    assert_eq!(chars, vec!['c', 'r', 'â', 'n', 'e', '-', '0']);
    assert_eq!(string_of(&chars), "crâne-0");
    assert_eq!(chars_of(""), Vec::<char>::new());
    assert_eq!(string_of(&[]), "");
}

#[test]
fn trim_drops_white_space_at_both_ends_only() {
    assert_eq!(trim(&chars_of("  a b \n")), chars_of("a b"));
    assert_eq!(trim(&chars_of("a")), chars_of("a"));
    assert_eq!(trim(&chars_of(" \t\r\n")), chars_of(""));
    assert_eq!(trim(&chars_of("")), chars_of(""));
    assert_eq!(trim(&chars_of("\u{2003}x\u{3000}")), chars_of("x"));
    assert_eq!(trim(&chars_of("_x_")), chars_of("_x_"));
}

#[test]
fn field_ends_at_the_next_separator() {
    let chars = chars_of("ab-cd--e");
    assert_eq!(find_field_end(&chars, '-', 0), 2);
    assert_eq!(find_field_end(&chars, '-', 2), 2);
    assert_eq!(find_field_end(&chars, '-', 3), 5);
    assert_eq!(find_field_end(&chars, '-', 6), 6);
    assert_eq!(find_field_end(&chars, '-', 7), 8);
    assert_eq!(find_field_end(&chars, '-', 8), 8);
    assert_eq!(find_field_end(&chars, 'x', 0), 8);
}
