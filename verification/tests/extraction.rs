use crc_check::extract::{find_crc_in_name, parse_crc};

#[test]
fn token_round_trip_in_conventional_name() {
    assert_eq!(find_crc_in_name(b"movie_1A2B3C4D.mkv"), Some(0x1A2B3C4D));
}

#[test]
fn token_is_matched_case_insensitively() {
    assert_eq!(find_crc_in_name(b"movie_1a2b3c4d.mkv"), Some(0x1A2B3C4D));
}

#[test]
fn rightmost_token_wins() {
    assert_eq!(
        find_crc_in_name(b"x_00000000_y_11111111_z"),
        Some(0x11111111)
    );
}

#[test]
fn hex_looking_directory_does_not_shadow_the_token() {
    assert_eq!(
        find_crc_in_name(b"/tmp/CAFEBABE/movie_1A2B3C4D.mkv"),
        Some(0x1A2B3C4D)
    );
}

#[test]
fn seven_hex_digits_are_rejected() {
    assert_eq!(find_crc_in_name(b"movie_1A2B3C4.mkv"), None);
}

#[test]
fn nine_hex_digits_are_rejected() {
    assert_eq!(find_crc_in_name(b"movie_1A2B3C4D5.mkv"), None);
}

#[test]
fn adjacent_hex_digit_breaks_the_boundary() {
    // The 'e' of "movie" sits right against the 8 digits: no valid boundary.
    assert_eq!(find_crc_in_name(b"movie1A2B3C4D.mkv"), None);
}

#[test]
fn token_at_string_edge_has_no_boundary() {
    assert_eq!(find_crc_in_name(b"1A2B3C4D.mkv"), None);
    assert_eq!(find_crc_in_name(b"movie_1A2B3C4D"), None);
}

#[test]
fn short_and_empty_paths_hold_no_token() {
    assert_eq!(find_crc_in_name(b""), None);
    assert_eq!(find_crc_in_name(b"a.txt"), None);
    assert_eq!(find_crc_in_name(b"_1A2B3C4"), None);
}

#[test]
fn parse_crc_accepts_exactly_one_window_shape() {
    assert_eq!(parse_crc(b"_1A2B3C4D."), Some(0x1A2B3C4D));
    assert_eq!(parse_crc(b"x1a2b3c4dy"), Some(0x1A2B3C4D));
    // wrong length
    assert_eq!(parse_crc(b"_1A2B3C4."), None);
    assert_eq!(parse_crc(b"_1A2B3C4D5."), None);
    // a boundary that is itself a hex digit
    assert_eq!(parse_crc(b"11A2B3C4D."), None);
    assert_eq!(parse_crc(b"_1A2B3C4DF"), None);
    // a non-hex byte inside the run
    assert_eq!(parse_crc(b"_1A2B3G4D."), None);
}
