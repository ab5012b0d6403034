use fwevents::clean::clean_event_description;

fn by_pattern(text: &str) -> String {
    let pattern = regex::Regex::new(r"^\[.*?>\s*").unwrap();
    pattern.replace_all(text, "").to_string()
}

#[test]
fn strips_one_leading_tag() {
    assert_eq!(clean_event_description("[tag> real text"), "real text");
    assert_eq!(clean_event_description("[IPS] [x]>   blocked"), "blocked");
    assert_eq!(clean_event_description("[>"), "");
    assert_eq!(clean_event_description("[a>b"), "b");
}

#[test]
fn leaves_text_without_tag() {
    assert_eq!(clean_event_description(""), "");
    assert_eq!(clean_event_description("plain text"), "plain text");
    assert_eq!(clean_event_description(" [tag> text"), " [tag> text");
    assert_eq!(clean_event_description("[no closing mark"), "[no closing mark");
    assert_eq!(clean_event_description("tag> text"), "tag> text");
}

#[test]
fn tag_does_not_cross_a_line_feed() {
    assert_eq!(clean_event_description("[a\nb> c"), "[a\nb> c");
    assert_eq!(clean_event_description("[a\rb> c"), "c");
}

#[test]
fn stops_at_the_first_closing_mark() {
    assert_eq!(clean_event_description("[a> b > c"), "b > c");
    assert_eq!(clean_event_description("[a>> c"), "> c");
}

#[test]
fn removes_every_kind_of_white_space_behind_the_tag() {
    assert_eq!(clean_event_description("[t>\t\n\r x"), "x");
    assert_eq!(clean_event_description("[t>\u{a0}\u{2003}\u{3000}x"), "x");
    assert_eq!(clean_event_description("[t>\u{200b}x"), "\u{200b}x");
}

#[test]
fn second_tag_survives_one_pass() {
    let once = clean_event_description("[a> [b> text");
    assert_eq!(once, "[b> text");
    assert_eq!(clean_event_description(&once), "text");
}

#[test]
fn cleaning_twice_equals_cleaning_once() {
    for text in ["[tag> real text", "plain", "", "[x>  y [z> w", "[[a> b"] {
        let once = clean_event_description(text);
        assert_eq!(clean_event_description(&once), once);
    }
}

#[test]
fn agrees_with_the_pattern() {
    let samples = [
        "",
        "[",
        "[>",
        "[tag> real text",
        "[a> [b> text",
        "[a\nb> c",
        "[a\rb> c",
        "x[a> c",
        "[a>> c",
        "[t>\t\n\r\u{b}\u{c} x",
        "[t>\u{85}\u{a0}\u{1680}\u{2000}\u{200a}\u{2028}\u{2029}\u{202f}\u{205f}\u{3000}x",
        "[t>\u{200b}x",
        "[t>\u{180e}x",
        "[\u{e9}\u{4e2d}> \u{e9}t\u{e9}",
        "[t>   ",
        "no tag here > at all",
    ];
    for text in samples {
        assert_eq!(clean_event_description(text), by_pattern(text));
    }
}
