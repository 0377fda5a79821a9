use bibadac::report::windowed;

#[test]
fn a_place_is_shown_in_its_surroundings() {
    let s = "0123456789abcdefghij";
    assert_eq!(windowed(s, 8, 10, 3), Some(("567", "89", "abc")));
    assert_eq!(windowed(s, 2, 3, 5), Some(("01", "2", "34567")));
    assert_eq!(windowed(s, 18, 20, 5), Some(("defgh", "ij", "")));
    assert_eq!(windowed(s, 0, 20, 0), Some(("", s, "")));
    assert_eq!(windowed(s, 5, 5, usize::MAX), Some(("01234", "", "56789abcdefghij")));
    assert_eq!(windowed("", 0, 0, 20), Some(("", "", "")));
}

#[test]
fn places_off_the_text_have_no_surroundings() {
    let s = "0123456789";
    assert_eq!(windowed(s, 4, 3, 1), None);
    assert_eq!(windowed(s, 4, 11, 1), None);
    assert_eq!(windowed(s, 11, 12, 1), None);
}

#[test]
fn the_window_counts_characters() {
    let s = "\u{e9}0123";
    assert_eq!(windowed(s, 3, 4, 1), Some(("", "1", "23")));
    assert_eq!(windowed(s, 3, 4, 2), Some(("0", "1", "23")));
    assert_eq!(windowed(s, 1, 2, 1), None);
    // the window starts at a character behind the place
    assert_eq!(windowed("\u{e9}\u{e9}\u{e9}ab", 3, 4, 0), None);
}
