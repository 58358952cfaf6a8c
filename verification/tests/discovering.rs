use tila::discovery::{get_device_numbers, parse_device_numbers, DiscoveryError};

fn chars(s: &str) -> Vec<char> {
    s.chars().collect()
}

const LISTING: &str = "\
Virtual core pointer                    id=2    [master pointer  (3)]
\u{21b3} Virtual core XTEST pointer              id=4    [slave  pointer  (2)]
\u{21b3} Keychron K2 Keyboard                    id=11   [slave  keyboard (3)]
Virtual core keyboard                   id=3    [master keyboard (2)]
\u{21b3} Keychron K2 System Control              id=13   [slave  keyboard (3)]
";

#[test]
fn matching_lines_yield_ids_in_order() {
    assert_eq!(get_device_numbers("keychron", LISTING).unwrap(), vec![11, 13]);
}

#[test]
fn match_is_case_insensitive() {
    assert_eq!(get_device_numbers("KEYCHRON", LISTING).unwrap(), vec![11, 13]);
    assert_eq!(get_device_numbers("kEyChRoN k2", LISTING).unwrap(), vec![11, 13]);
}

#[test]
fn no_matching_line_yields_no_ids() {
    assert_eq!(get_device_numbers("trackball", LISTING).unwrap(), Vec::<u8>::new());
}

#[test]
fn id_with_no_digits_is_fatal() {
    let listing = "Keychron K2 Keyboard id=abc [slave keyboard]\n";
    assert_eq!(get_device_numbers("keychron", listing), Err(DiscoveryError::InvalidId));
}

#[test]
fn id_too_large_is_fatal() {
    let listing = "Keychron K2 Keyboard id=300 [slave keyboard]\n";
    assert_eq!(get_device_numbers("keychron", listing), Err(DiscoveryError::InvalidId));
}

#[test]
fn last_marker_wins() {
    let lines = vec![chars("grid id=5 keyboard id=7")];
    assert_eq!(parse_device_numbers(&lines).unwrap(), vec![7]);
}

#[test]
fn line_without_marker_contributes_nothing() {
    let lines = vec![chars("keyboard without any marker"), chars("keyboard id=11 ok")];
    assert_eq!(parse_device_numbers(&lines).unwrap(), vec![11]);
}

#[test]
fn digits_end_at_first_non_digit() {
    let lines = vec![chars("keyboard id=12x3")];
    assert_eq!(parse_device_numbers(&lines).unwrap(), vec![12]);
}

#[test]
fn empty_candidate_set_yields_no_ids() {
    let lines: Vec<Vec<char>> = Vec::new();
    assert_eq!(parse_device_numbers(&lines).unwrap(), Vec::<u8>::new());
}

#[test]
fn bare_marker_at_line_end_is_fatal() {
    let lines = vec![chars("keyboard id=")];
    assert_eq!(parse_device_numbers(&lines), Err(DiscoveryError::InvalidId));
}
