use query_range::utility::to_title_case;
use query_range::QueryRangeItr;

#[test]
fn can_transform_query() {
    let query = "needle";
    let content = "haystackneedlehaystackneedlehaystack";
    let result = QueryRangeItr::transform_query(query, content, |it| it.to_uppercase());
    assert_eq!(result, "haystackNEEDLEhaystackNEEDLEhaystack");
}

#[test]
fn can_reassemble_string() {
    let query = "needle";
    let content = "haystackneedlehaystackneedlehaystack";
    let result = QueryRangeItr::transform_all(
        query,
        content,
        |it| it.to_uppercase(),
        |it| to_title_case(it),
    );
    assert_eq!(result, "HaystackNEEDLEHaystackNEEDLEHaystack");
}

#[test]
fn can_transform_other() {
    let query = "needle";
    let content = "haystackneedlehaystackneedlehaystack";
    let result = QueryRangeItr::transform_other(query, content, |it| it.to_uppercase());
    assert_eq!(result, "HAYSTACKneedleHAYSTACKneedleHAYSTACK");
}

#[test]
fn transform_selects_by_the_flag() {
    let query = "needle";
    let content = "haystackneedlehaystackneedlehaystack";
    let matches = QueryRangeItr::transform(query, content, |it| it.to_uppercase(), false);
    assert_eq!(matches, "haystackNEEDLEhaystackNEEDLEhaystack");
    let gaps = QueryRangeItr::transform(query, content, |it| it.to_uppercase(), true);
    assert_eq!(gaps, "HAYSTACKneedleHAYSTACKneedleHAYSTACK");
}

#[test]
fn identity_transform_of_the_matches_returns_the_content() {
    let contents = ["haystackneedlehaystackneedlehaystack", "needle", "needleneedle", "hay", ""];
    let queries = ["needle", "hay", "zzz", ""];
    for content in contents {
        for query in queries {
            let result = QueryRangeItr::transform_query(query, content, |it| String::from(it));
            assert_eq!(result, content);
        }
    }
}

#[test]
fn identity_transform_of_the_gaps_returns_the_content() {
    let contents = ["haystackneedlehaystackneedlehaystack", "needle", "needleneedle", "hay", ""];
    let queries = ["needle", "hay", "zzz", ""];
    for content in contents {
        for query in queries {
            let result = QueryRangeItr::transform_other(query, content, |it| String::from(it));
            assert_eq!(result, content);
        }
    }
}

#[test]
fn identity_transforms_of_both_return_the_content() {
    let contents = ["haystackneedlehaystackneedlehaystack", "needle", "needleneedle", "hay", ""];
    let queries = ["needle", "hay", "zzz", ""];
    for content in contents {
        for query in queries {
            let result = QueryRangeItr::transform_all(
                query,
                content,
                |it| String::from(it),
                |it| String::from(it),
            );
            assert_eq!(result, content);
        }
    }
}

#[test]
fn a_transform_may_change_the_length() {
    let content = "a, b, c";
    let wider = QueryRangeItr::transform_query(", ", content, |_| String::from(" and "));
    assert_eq!(wider, "a and b and c");
    let narrower = QueryRangeItr::transform_query(", ", content, |_| String::new());
    assert_eq!(narrower, "abc");
    let bracketed = QueryRangeItr::transform_other(", ", content, |it| format!("[{}]", it));
    assert_eq!(bracketed, "[a], [b], [c]");
}

#[test]
fn empty_gaps_are_transformed_where_they_lie() {
    let bracketed =
        QueryRangeItr::transform_other("needle", "needleneedlehay", |it| format!("[{}]", it));
    assert_eq!(bracketed, "[]needle[]needle[hay]");
    let at_the_end =
        QueryRangeItr::transform_other("needle", "hayneedle", |it| format!("[{}]", it));
    assert_eq!(at_the_end, "[hay]needle");
    let only = QueryRangeItr::transform_other("needle", "needle", |it| format!("[{}]", it));
    assert_eq!(only, "[]needle");
}

#[test]
fn absent_query_leaves_one_gap_to_transform() {
    let content = "haystack";
    assert_eq!(QueryRangeItr::transform_query("zzz", content, |it| it.to_uppercase()), content);
    assert_eq!(QueryRangeItr::transform_other("zzz", content, |it| it.to_uppercase()), "HAYSTACK");
}

#[test]
fn empty_content_is_rewritten_to_empty_content() {
    assert_eq!(QueryRangeItr::transform_query("needle", "", |_| String::from("x")), "");
    assert_eq!(QueryRangeItr::transform_other("needle", "", |_| String::from("x")), "");
    assert_eq!(
        QueryRangeItr::transform_all("needle", "", |_| String::from("x"), |_| String::from("y")),
        ""
    );
}

#[test]
fn empty_query_selects_the_whole_content_as_a_gap() {
    assert_eq!(QueryRangeItr::transform_query("", "abc", |it| it.to_uppercase()), "abc");
    assert_eq!(QueryRangeItr::transform_other("", "abc", |it| it.to_uppercase()), "ABC");
}

#[test]
fn transforming_twice_need_not_equal_transforming_once() {
    let double = |it: &str| format!("{}{}", it, it);
    let once = QueryRangeItr::transform_query("ab", "-ab-", double);
    assert_eq!(once, "-abab-");
    let twice = QueryRangeItr::transform_query("ab", &once, double);
    assert_eq!(twice, "-abababab-");
    assert_ne!(once, twice);
}

#[test]
fn second_pass_searches_for_the_transformed_query() {
    let result = QueryRangeItr::transform_all(
        "b",
        "abcabc",
        |_| String::from("--"),
        |it| it.to_uppercase(),
    );
    assert_eq!(result, "A--CA--C");
    let merged = QueryRangeItr::transform_all(
        "b",
        "abcabc",
        |_| String::from("c"),
        |it| it.to_uppercase(),
    );
    assert_eq!(merged, "AccAcc");
}

#[test]
fn transform_keeps_wide_characters_whole() {
    let content = "h\u{e9}llo w\u{f6}rld h\u{e9}llo";
    let result = QueryRangeItr::transform_query("h\u{e9}llo", content, |it| it.to_uppercase());
    assert_eq!(result, "H\u{c9}LLO w\u{f6}rld H\u{c9}LLO");
    let other = QueryRangeItr::transform_other("h\u{e9}llo", content, |it| it.to_uppercase());
    assert_eq!(other, "h\u{e9}llo W\u{d6}RLD h\u{e9}llo");
}

#[test]
fn many_segments_keep_their_order() {
    let mut content = String::new();
    let mut expected = String::new();
    for i in 0..40 {
        content.push_str(&format!("{},", i));
        expected.push_str(&format!("<{}>,", i));
    }
    content.push_str(",,end");
    expected.push_str("<>,<>,<end>");
    let result = QueryRangeItr::transform_other(",", &content, |it| format!("<{}>", it));
    assert_eq!(result, expected);
    let swapped = QueryRangeItr::transform_query(",", &content, |_| String::from(";"));
    assert_eq!(swapped, content.replace(",", ";"));
}
