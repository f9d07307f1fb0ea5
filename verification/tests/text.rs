//! Texts, names and maps.
use sshpal::name_map::NameMap;
use sshpal::text::{
    chars_of, contains_text, decimal_text, is_before, is_blank, is_valid_name, is_white_space,
    join, replace_all, same_text, signed_decimal_text, text_between, trim_end,
};
use sshpal::time_span::{read_time_span, SpanReading, TimeSpan};

fn words(list: &[&str]) -> Vec<String> {
    list.iter().map(|item| item.to_string()).collect()
}

#[test]
fn white_space_is_that_of_std() {
    let mut code: u32 = 0;
    while code <= 0x10ffff {
        if let Some(ch) = char::from_u32(code) {
            assert_eq!(is_white_space(ch), ch.is_whitespace(), "{:?}", ch);
        }
        code += 1;
    }
}

#[test]
fn order_of_texts_is_that_of_std() {
    let samples = ["", "a", "ab", "b", "B", "a b", "é", "z", "\u{10000}", "\u{ffff}", "aé"];
    for left in samples {
        for right in samples {
            assert_eq!(is_before(left, right), left < right, "{left} {right}");
            assert_eq!(same_text(left, right), left == right);
        }
    }
}

#[test]
fn numbers_are_written_in_decimal() {
    for value in [0, 7, 10, 45678, 65535, u128::MAX] {
        assert_eq!(decimal_text(value), value.to_string());
    }
    for value in [0, 1, -1, 124, i32::MAX, i32::MIN] {
        assert_eq!(signed_decimal_text(value), value.to_string());
    }
}

#[test]
fn texts_are_trimmed_joined_and_replaced() {
    assert_eq!(trim_end("token \r\n\t"), "token");
    assert_eq!(trim_end(" a b"), " a b");
    assert_eq!(trim_end(" \n"), "");
    assert!(is_blank(" \u{3000}\n"));
    assert!(!is_blank(" x "));
    assert_eq!(join(&words(&["a", "", "b"]), ", "), "a, , b");
    assert_eq!(join(&[], ", "), "");
    assert_eq!(replace_all("aaa-aa", "aa", "b"), "aaa-aa".replace("aa", "b"));
    assert_eq!(replace_all("it's", "'", "'\"'\"'"), "it'\"'\"'s");
    assert_eq!(text_between(&chars_of("straße"), 3, 5), "aß");
    assert!(contains_text(&words(&["x", "y"]), "y"));
    assert!(!contains_text(&words(&["x", "y"]), "z"));
}

#[test]
fn names_are_words_of_ascii() {
    for name in ["_", "a", "A9_", "crate_name"] {
        assert!(is_valid_name(name));
    }
    for name in ["", "9a", "a-b", "é", "a b", "a=b"] {
        assert!(!is_valid_name(name));
    }
}

#[test]
fn maps_keep_their_names_in_order() {
    let mut map = NameMap::new();
    map.insert("b".to_string(), 1);
    map.insert("a".to_string(), 2);
    map.insert("c".to_string(), 3);
    map.insert("b".to_string(), 4);
    assert_eq!(map.len(), 3);
    assert_eq!(map.get("b"), Some(&4));
    assert_eq!(map.get("d"), None);
    assert!(map.contains_key("c"));
    assert_eq!(map.name_at(0), "a");
    assert_eq!(map.value_at(2), &3);
    assert_eq!(map.clone(), map);
    assert_eq!(
        map.into_parts(),
        (words(&["a", "b", "c"]), vec![2, 4, 3])
    );
}

#[test]
fn spans_are_written_as_a_reader_sees_them() {
    assert_eq!(TimeSpan::from_secs(10).text(), "10s");
    assert_eq!(TimeSpan::from_secs(600).text(), "10m");
    let span = TimeSpan::from_parts(3661, 5_000_000).unwrap();
    assert_eq!(span.text(), "1h 1m 1s 5ms");
    assert_eq!((span.secs(), span.subsec_nanos()), (3661, 5_000_000));
    assert_eq!(TimeSpan::from_parts(1, 1_000_000_000), None);
    assert_eq!(TimeSpan::from_secs(0).text(), "0s");
    assert_eq!(TimeSpan::from_secs(31_557_600 + 2 * 2_630_016 + 86_400).text(), "1year 2months 1day");
    assert_eq!(TimeSpan::from_secs(2 * 31_557_600 + 2_630_016 + 5 * 86_400).text(), "2years 1month 5days");
    assert_eq!(TimeSpan::from_parts(0, 1_002_003).unwrap().text(), "1ms 2us 3ns");
    assert_eq!(
        TimeSpan::from_parts(u64::MAX, 999_999_999).unwrap().text(),
        "584542046090years 7months 15days 17h 5m 3s 999ms 999us 999ns"
    );
}

fn span(secs: u64, nanos: u32) -> SpanReading {
    SpanReading::Span {
        span: TimeSpan::from_parts(secs, nanos).unwrap(),
    }
}

#[test]
fn time_spans_are_read() {
    assert_eq!(read_time_span("10s"), span(10, 0));
    assert_eq!(read_time_span("2h 37min"), span(9420, 0));
    assert_eq!(read_time_span("4.2s"), span(4, 200_000_000));
    assert_eq!(read_time_span("1d2h 3m 4s 500ms 600us 700ns"), span(93_784, 500_600_700));
    assert_eq!(read_time_span("0"), span(0, 0));
    assert_eq!(read_time_span("999999999y"), span(999_999_999 * 31_557_600, 0));
}

#[test]
fn what_is_no_time_span_is_refused() {
    let refused = |text: &str, message: &str| {
        assert_eq!(
            read_time_span(text),
            SpanReading::Invalid {
                message: message.to_string()
            }
        );
    };
    refused("", "value was empty");
    refused("10", "time unit needed, for example 10sec or 10ms");
    refused("soon", "expected number at 0");
    refused("1s-", "invalid character at 2");
}

#[test]
fn written_time_spans_are_read_back() {
    for (secs, nanos) in [
        (0, 0),
        (10, 0),
        (3661, 5_000_000),
        (2 * 31_557_600 + 2_630_016 + 5 * 86_400, 999_999_999),
        (999_999_999 * 31_557_600 + 31_557_599, 1_002_003),
    ] {
        let written = TimeSpan::from_parts(secs, nanos).unwrap();
        assert_eq!(read_time_span(&written.text()), SpanReading::Span { span: written });
    }
}

#[test]
fn long_time_spans_are_left_alone() {
    assert_eq!(read_time_span("1000000000ns"), SpanReading::TooLong);
    assert_eq!(read_time_span("1 0 0 0 0 0 0 0 0 0ns"), SpanReading::TooLong);
    assert_eq!(read_time_span("123456789.123456789s"), span(123_456_789, 123_456_789));
    assert_eq!(read_time_span(&"1s".repeat(500)), span(500, 0));
    assert_eq!(read_time_span(&format!("{}1", "1s".repeat(500))), SpanReading::TooLong);
    assert_eq!(read_time_span(&"999999999years".repeat(71)), span(999_999_999 * 31_557_600 * 71, 0));
}
