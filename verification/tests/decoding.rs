use tila::decode::{decode, DecodeError};

#[test]
fn empty_log_decodes_to_empty() {
    assert_eq!(decode("").unwrap(), "");
}

#[test]
fn press_record_decodes_to_q() {
    assert_eq!(decode("1652024669524708 key press 24\n").unwrap(), "q");
}

#[test]
fn release_record_decodes_to_nothing() {
    assert_eq!(decode("1652024669524708 key release 24\n").unwrap(), "");
}

#[test]
fn presses_and_releases_decode_to_ui() {
    let log = "10 key press 30\n11 key press 31\n12 key release 30\n";
    assert_eq!(decode(log).unwrap(), "ui");
}

#[test]
fn non_numeric_keycode_is_fatal() {
    assert_eq!(decode("1 key press abc\n"), Err(DecodeError::BadKeycode));
}

#[test]
fn oversized_keycode_is_fatal() {
    assert_eq!(decode("1 key press 300\n"), Err(DecodeError::BadKeycode));
}

#[test]
fn short_line_is_fatal() {
    assert_eq!(decode("1 key press\n"), Err(DecodeError::MalformedLine));
}

#[test]
fn long_line_is_fatal() {
    assert_eq!(decode("1 key press 24 extra\n"), Err(DecodeError::MalformedLine));
}

#[test]
fn blank_line_is_fatal() {
    assert_eq!(decode("1 key press 24\n\n"), Err(DecodeError::MalformedLine));
}

#[test]
fn unknown_keycode_is_skipped() {
    assert_eq!(decode("1 key press 99\n2 key press 24\n").unwrap(), "q");
}

#[test]
fn space_keycode_decodes_to_space() {
    assert_eq!(decode("1 key press 65\n").unwrap(), " ");
}

#[test]
fn missing_final_newline_still_decodes() {
    assert_eq!(decode("1 key press 24").unwrap(), "q");
}

#[test]
fn repeated_whitespace_separates_fields() {
    assert_eq!(decode("1  key \t press  24\n").unwrap(), "q");
}

#[test]
fn error_on_first_bad_line_wins() {
    let log = "1 key press 24\nnot a record\n2 key press oops\n";
    assert_eq!(decode(log), Err(DecodeError::MalformedLine));
}

#[test]
fn release_keycode_is_not_parsed() {
    assert_eq!(decode("1 key release abc\n").unwrap(), "");
}
