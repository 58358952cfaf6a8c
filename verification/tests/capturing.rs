use tila::capture::{log_file_name, sink_append, sink_drain, timestamp_line};
use tila::decode::decode;

#[test]
fn timestamp_is_prepended_verbatim() {
    let line = timestamp_line(1652024669524708, "key press 24\n");
    assert_eq!(line, "1652024669524708 key press 24\n");
}

#[test]
fn timestamp_zero_still_forms_a_record() {
    assert_eq!(timestamp_line(0, "key release 30\n"), "0 key release 30\n");
}

#[test]
fn log_name_embeds_count_three() {
    assert_eq!(log_file_name(3), "tila-3.log");
}

#[test]
fn log_name_embeds_count_zero() {
    assert_eq!(log_file_name(0), "tila-0.log");
}

#[test]
fn log_name_embeds_large_count() {
    assert_eq!(log_file_name(120), "tila-120.log");
}

#[test]
fn sink_appends_in_arrival_order() {
    let records = vec![
        String::from("1 key press 24\n"),
        String::from("2 key press 25\n"),
        String::from("3 key release 24\n"),
    ];
    let log = sink_drain(&records);
    assert_eq!(log, "1 key press 24\n2 key press 25\n3 key release 24\n");
}

#[test]
fn sink_keeps_per_producer_order() {
    // Two listeners' records arrive interleaved; each listener's own
    // records must appear in the log in its own send order.
    let a1 = timestamp_line(10, "key press 24\n");
    let b1 = timestamp_line(11, "key press 25\n");
    let a2 = timestamp_line(12, "key press 26\n");
    let b2 = timestamp_line(13, "key press 27\n");
    let merged = vec![a1.clone(), b1.clone(), a2.clone(), b2.clone()];
    let log = sink_drain(&merged);
    let from_a: Vec<&str> = log.lines().filter(|l| l.contains("24") || l.contains("26")).collect();
    let from_b: Vec<&str> = log.lines().filter(|l| l.contains("25") || l.contains("27")).collect();
    assert_eq!(from_a, vec![a1.trim_end(), a2.trim_end()]);
    assert_eq!(from_b, vec![b1.trim_end(), b2.trim_end()]);
}

#[test]
fn sink_append_grows_the_log() {
    let mut log = String::new();
    sink_append(&mut log, "1 key press 24\n");
    sink_append(&mut log, "2 key press 31\n");
    assert_eq!(log, "1 key press 24\n2 key press 31\n");
}

#[test]
fn captured_records_decode_back() {
    let records = vec![
        timestamp_line(100, "key press 24\n"),
        timestamp_line(200, "key press 25\n"),
        timestamp_line(300, "key release 24\n"),
    ];
    let log = sink_drain(&records);
    assert_eq!(decode(&log).unwrap(), "qw");
}
