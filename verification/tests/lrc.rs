use yamusic::lrc::{parse_lrc, parse_timestamp};

fn lines(v: &[(u64, &str)]) -> Vec<(u64, String)> {
    v.iter().map(|(t, s)| (*t, s.to_string())).collect()
}

#[test]
fn timestamp_with_hundredths() {
    assert_eq!(parse_timestamp("00:01.50"), Some(1500));
    assert_eq!(parse_timestamp("01:02.05"), Some(62050));
}

#[test]
fn timestamp_fraction_digits_scale() {
    assert_eq!(parse_timestamp("01:02.5"), Some(62500));
    assert_eq!(parse_timestamp("01:02.123"), Some(62123));
    assert_eq!(parse_timestamp("00:01.123456"), Some(1123));
    assert_eq!(parse_timestamp("00:01.7x"), Some(1700));
}

#[test]
fn timestamp_without_fraction() {
    assert_eq!(parse_timestamp("00:05"), Some(5000));
    assert_eq!(parse_timestamp("3:00"), Some(180000));
    assert_eq!(parse_timestamp("1:02:03"), Some(62000));
    assert_eq!(parse_timestamp("+1:+02.5"), Some(62500));
}

#[test]
fn timestamp_rejections() {
    assert_eq!(parse_timestamp("00:60"), None);
    assert_eq!(parse_timestamp("00:60.00"), None);
    assert_eq!(parse_timestamp("ar:Artist"), None);
    assert_eq!(parse_timestamp("0001"), None);
    assert_eq!(parse_timestamp("00:01."), None);
    assert_eq!(parse_timestamp("00:01.x"), None);
    assert_eq!(parse_timestamp("-1:00"), None);
    assert_eq!(parse_timestamp(":05"), None);
    assert_eq!(parse_timestamp("00:"), None);
    assert_eq!(parse_timestamp("99999999999999999999:00"), None);
}

#[test]
fn timestamp_wraps_like_u64_arithmetic() {
    let min = u64::MAX;
    let expected = min.wrapping_mul(60).wrapping_add(1).wrapping_mul(1000).wrapping_add(500);
    assert_eq!(parse_timestamp("18446744073709551615:01.5"), Some(expected));
}

#[test]
fn parses_two_lines() {
    assert_eq!(
        parse_lrc("[00:01.50]hello\n[00:03.00]world"),
        lines(&[(1500, "hello"), (3000, "world")])
    );
}

#[test]
fn several_tags_on_one_line_are_ordered_by_time() {
    assert_eq!(
        parse_lrc("[00:03.00][00:01.00]a\n[00:02.00]b"),
        lines(&[(1000, "a"), (2000, "b"), (3000, "a")])
    );
}

#[test]
fn equal_times_keep_text_order() {
    assert_eq!(
        parse_lrc("[00:01.00]x\n[00:00.50]w\n[00:01.00]y"),
        lines(&[(500, "w"), (1000, "x"), (1000, "y")])
    );
}

#[test]
fn metadata_tags_and_untimed_lines_give_nothing() {
    assert_eq!(
        parse_lrc("[ar:Someone]\n[ti:Song]\nplain words\n[00:01.00]  words  \r\n\n"),
        lines(&[(1000, "words")])
    );
}

#[test]
fn words_follow_the_last_time_tag() {
    assert_eq!(
        parse_lrc("[00:01.00]a[00:02.00]b"),
        lines(&[(1000, "b"), (2000, "b")])
    );
    assert_eq!(parse_lrc("[00:01.00]a[xx]b"), lines(&[(1000, "a[xx]b")]));
    assert_eq!(parse_lrc("[00:01.00]a [b"), lines(&[(1000, "a [b")]));
}

#[test]
fn empty_words_and_empty_text() {
    assert_eq!(parse_lrc("[00:04.00]"), lines(&[(4000, "")]));
    assert_eq!(parse_lrc(""), lines(&[]));
    assert_eq!(parse_lrc("\n\n"), lines(&[]));
}

#[test]
fn unicode_words_are_trimmed() {
    assert_eq!(
        parse_lrc("[00:01.00]\u{3000} Привет мир \u{a0}"),
        lines(&[(1000, "Привет мир")])
    );
}

#[test]
fn carriage_returns_end_lines() {
    assert_eq!(
        parse_lrc("[00:02.00]b\r\n[00:01.00]a\r"),
        lines(&[(1000, "a"), (2000, "b")])
    );
}

#[test]
fn joined_texts_merge_by_time() {
    let a = "[00:02.00]a1\n[00:01.00]x";
    let b = "[00:01.00]y\n[00:03.00]b";
    let joined = format!("{a}\n{b}");
    assert_eq!(
        parse_lrc(&joined),
        lines(&[(1000, "x"), (1000, "y"), (2000, "a1"), (3000, "b")])
    );
}
