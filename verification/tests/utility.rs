use query_range::utility::to_title_case;
use query_range::{get_range, is_within, shift_range, shift_range_in_content, Shift};

#[test]
fn can_convert_to_title_case() {
    assert_eq!(to_title_case("fooBarBaz"), "Foobarbaz");
    assert_eq!(to_title_case("f"), "F");
    assert_eq!(to_title_case(""), "");
}

#[test]
fn can_apply_a_shift_to_a_number() {
    let number = 5;
    let shift = Shift::Up(2);
    assert_eq!(shift.apply_to_number(number), Some(7));
    let number = 8;
    let shift = Shift::Down(3);
    assert_eq!(shift.apply_to_number(number), Some(5));
}

#[test]
fn can_apply_a_shift_to_a_range() {
    let range = 0..5;
    let shift = Shift::Up(2);
    assert_eq!(shift.apply_to_range(range), Some(2..7));
    let range = 4..7;
    let shift = Shift::Down(3);
    assert_eq!(shift.apply_to_range(range), Some(1..4));
}

#[test]
fn can_shift_a_range() {
    let range = 0..5;
    let new_range = shift_range(range, Shift::Up(2));
    assert_eq!(new_range, Some(2..7));
    assert_ne!(shift_range(new_range.unwrap(), Shift::Down(3)), Some(0..1));
}

#[test]
fn is_within_is_true_when_range_is_within() {
    let test_str = "012345";
    let range = 0..2;
    assert_eq!(is_within(test_str, &range), true);
}

#[test]
fn is_within_is_false_when_range_end_is_longer_than_string() {
    let test_str = "012345";
    let range = 2..7;
    assert_eq!(is_within(test_str, &range), false);
}

#[test]
fn title_case_of_a_text_that_starts_with_a_wide_character() {
    assert_eq!(to_title_case("\u{e9}COLE"), "\u{c9}cole");
    assert_eq!(to_title_case("\u{e9}"), "\u{c9}");
}

#[test]
fn title_case_lowers_all_but_the_first_character() {
    assert_eq!(to_title_case("HAYSTACK"), "Haystack");
    assert_eq!(to_title_case("haystack"), "Haystack");
    assert_eq!(to_title_case("hAYSTACK nEEDLE"), "Haystack needle");
}

#[test]
fn shifting_a_number_past_the_largest_gives_none() {
    assert_eq!(Shift::Up(1).apply_to_number(usize::MAX), None);
    assert_eq!(Shift::Up(usize::MAX).apply_to_number(1), None);
    assert_eq!(Shift::Up(0).apply_to_number(usize::MAX), Some(usize::MAX));
    assert_eq!(Shift::Up(usize::MAX - 1).apply_to_number(1), Some(usize::MAX));
}

#[test]
fn shifting_a_number_below_zero_gives_none() {
    assert_eq!(Shift::Down(1).apply_to_number(0), None);
    assert_eq!(Shift::Down(9).apply_to_number(8), None);
    assert_eq!(Shift::Down(8).apply_to_number(8), Some(0));
}

#[test]
fn shifting_a_range_fails_when_either_end_does() {
    assert_eq!(shift_range(2..7, Shift::Down(3)), None);
    assert_eq!(shift_range(3..7, Shift::Down(3)), Some(0..4));
    assert_eq!(shift_range(0..usize::MAX, Shift::Up(1)), None);
    assert_eq!(shift_range(0..usize::MAX - 1, Shift::Up(1)), Some(1..usize::MAX));
    assert_eq!(Shift::Up(usize::MAX).apply_to_range(0..1), None);
}

#[test]
fn shifting_keeps_a_range_whose_start_lies_after_its_end() {
    assert_eq!(shift_range(7..2, Shift::Up(1)), Some(8..3));
    assert_eq!(shift_range(7..2, Shift::Down(3)), None);
}

#[test]
fn shift_in_content_checks_the_end_of_the_new_range() {
    let test_str = "this is a test";
    assert_eq!(shift_range_in_content(0..5, Shift::Up(2), test_str), Some(2..7));
    assert_eq!(shift_range_in_content(0..5, Shift::Up(20), test_str), None);
    assert_eq!(shift_range_in_content(0..5, Shift::Up(9), test_str), Some(9..14));
    assert_eq!(shift_range_in_content(0..5, Shift::Up(10), test_str), None);
    assert_eq!(shift_range_in_content(0..5, Shift::Down(1), test_str), None);
    assert_eq!(shift_range_in_content(20..25, Shift::Down(15), test_str), Some(5..10));
    assert_eq!(shift_range_in_content(0..5, Shift::Up(usize::MAX), test_str), None);
}

#[test]
fn is_within_looks_at_the_end_only() {
    let test_str = "this is a test";
    assert_eq!(is_within(test_str, &(0..2)), true);
    assert_eq!(is_within(test_str, &(20..25)), false);
    assert_eq!(is_within(test_str, &(0..14)), true);
    assert_eq!(is_within(test_str, &(0..15)), false);
    assert_eq!(is_within(test_str, &(20..3)), true);
    assert_eq!(is_within("", &(0..0)), true);
}

#[test]
fn get_range_finds_the_first_occurrence() {
    let content = "haystackneedlehaystackneedlehaystack";
    assert_eq!(get_range("needle", content), Some(8..14));
    assert_eq!(get_range("haystack", content), Some(0..8));
    assert_eq!(get_range("k", content), Some(7..8));
    assert_eq!(get_range(content, content), Some(0..36));
}

#[test]
fn get_range_finds_nothing_where_the_query_is_absent() {
    assert_eq!(get_range("zzz", "haystackneedle"), None);
    assert_eq!(get_range("needles", "haystackneedle"), None);
    assert_eq!(get_range("haystackneedlehay", "haystackneedle"), None);
    assert_eq!(get_range("needle", ""), None);
}

#[test]
fn get_range_never_finds_an_empty_query() {
    assert_eq!(get_range("", "haystack"), None);
    assert_eq!(get_range("", ""), None);
}

#[test]
fn get_range_goes_on_after_a_partial_match() {
    assert_eq!(get_range("aab", "aaab"), Some(1..4));
    assert_eq!(get_range("abab", "abaabab"), Some(3..7));
    assert_eq!(get_range("le", "needle"), Some(4..6));
}

#[test]
fn get_range_counts_bytes() {
    assert_eq!(get_range("w\u{f6}rld", "h\u{e9}llo w\u{f6}rld"), Some(7..13));
    assert_eq!(get_range("\u{e9}", "h\u{e9}llo"), Some(1..3));
}
