use doing::display::{
    escape_csv, format_duration, format_tags, highlight_matches, DisplayOptions, html_escape,
    SortOrder,
};
use doing::model::{Entry, Tag};
use doing::subparse::{parse_clock, parse_duration, parse_smart_case, parse_time_of_day, split_range};
use doing::time::TimeOfDay;
use doing::timetext::{format_timestamp, parse_timestamp_at};
use doing::time::Timestamp;

#[test]
fn test_parse_smart_case_policies() {
    assert!(parse_smart_case("i", "AnyThing"));
    assert!(parse_smart_case("ignore", "AnyThing"));
    assert!(!parse_smart_case("c", "anything"));
    assert!(!parse_smart_case("case-sensitive", "anything"));
    assert!(parse_smart_case("s", "lower"));
    assert!(!parse_smart_case("smart", "Upper"));
    assert!(parse_smart_case("unknown-word", "lower"));
}

#[test]
fn test_parse_duration_formats() {
    assert_eq!(parse_duration("2h30m"), Some(2 * 3600 + 30 * 60));
    assert_eq!(parse_duration("90s"), Some(90));
    assert_eq!(parse_duration("1d"), Some(86400));
    assert_eq!(parse_duration("1:30"), Some(3600 + 30 * 60));
    assert_eq!(parse_duration("45m"), Some(45 * 60));
    assert_eq!(parse_duration("nonsense"), None);
    assert_eq!(parse_duration(""), None);
    // tokens may stand anywhere in the text
    assert_eq!(parse_duration("took 1h then 5m"), Some(3600 + 300));
}

#[test]
fn test_parse_clock() {
    assert_eq!(parse_clock("8:30"), Some(TimeOfDay { hour: 8, minute: 30 }));
    assert_eq!(parse_clock("15:00"), Some(TimeOfDay { hour: 15, minute: 0 }));
    assert_eq!(parse_clock("24:00"), None);
    assert_eq!(parse_clock("8:61"), None);
    assert_eq!(parse_clock("8am"), None);
}

#[test]
fn test_split_range() {
    let (a, b) = split_range("monday to friday");
    assert_eq!(a, "monday");
    assert_eq!(b, Some("friday".to_string()));
    let (a, b) = split_range("jan 1 through jan 5");
    assert_eq!(a, "jan 1");
    assert_eq!(b, Some("jan 5".to_string()));
    let (a, b) = split_range("2025-01-01 - 2025-01-05");
    assert_eq!(a, "2025-01-01");
    assert_eq!(b, Some("2025-01-05".to_string()));
    let (a, b) = split_range("yesterday");
    assert_eq!(a, "yesterday");
    assert_eq!(b, None);
}

#[test]
fn test_escape_csv() {
    assert_eq!(escape_csv("plain"), "plain");
    assert_eq!(escape_csv("a,b"), "\"a,b\"");
    assert_eq!(escape_csv("say \"hi\""), "\"say \"\"hi\"\"\"");
    assert_eq!(escape_csv("line\nbreak"), "\"line\nbreak\"");
}

#[test]
fn test_html_escape() {
    assert_eq!(html_escape("a<b>&\"c'"), "a&lt;b&gt;&amp;&quot;c&#39;");
    assert_eq!(html_escape("plain"), "plain");
}

#[test]
fn test_highlight_matches() {
    assert_eq!(
        highlight_matches("fix the bug now", "bug"),
        "fix the \u{1b}[33mbug\u{1b}[0m now"
    );
    assert_eq!(highlight_matches("no hit", "zzz"), "no hit");
}

#[test]
fn test_format_duration() {
    assert_eq!(format_duration(2 * 3600 + 5 * 60), "2h5m");
    assert_eq!(format_duration(5 * 60 + 9), "5m9s");
    assert_eq!(format_duration(42), "42s");
    assert_eq!(format_duration(0), "0s");
}

#[test]
fn test_format_tags_sorted() {
    let tags = vec![
        Tag { name: "zeta".to_string(), value: None },
        Tag { name: "alpha".to_string(), value: Some("1".to_string()) },
    ];
    let mut opts = DisplayOptions::default();
    assert_eq!(format_tags(&tags, &opts), "@alpha(1) @zeta");
    opts.tag_order = SortOrder::Desc;
    assert_eq!(format_tags(&tags, &opts), "@zeta @alpha(1)");
}

#[test]
fn test_timestamp_text_round_trip() {
    let t = Timestamp { year: 2025, month: 7, day: 28, hour: 16, minute: 24 };
    let text = format_timestamp(&t);
    assert_eq!(text, "2025-07-28 16:24");
    let chars: Vec<char> = text.chars().collect();
    assert_eq!(parse_timestamp_at(&chars, 0), Some(t));
}

#[test]
fn test_timestamp_rejects_bad_dates() {
    let chars: Vec<char> = "2025-02-30 10:00".chars().collect();
    assert_eq!(parse_timestamp_at(&chars, 0), None);
    let chars: Vec<char> = "2024-02-29 10:00".chars().collect();
    assert!(parse_timestamp_at(&chars, 0).is_some());
}

#[test]
fn test_entry_tag_rendering_order_kept() {
    // to_taskpaper inlines tags in stored order
    let e = Entry::new("desc".to_string(), "Currently".to_string())
        .with_tag("first".to_string(), None)
        .with_tag("second".to_string(), Some("v".to_string()));
    let line = e.to_taskpaper();
    let f = line.find("@first").unwrap();
    let s = line.find("@second(v)").unwrap();
    assert!(f < s);
}

#[test]
fn test_parse_meridian() {
    assert_eq!(parse_time_of_day("8am"), Some(TimeOfDay { hour: 8, minute: 0 }));
    assert_eq!(parse_time_of_day("8 pm"), Some(TimeOfDay { hour: 20, minute: 0 }));
    assert_eq!(parse_time_of_day("12am"), Some(TimeOfDay { hour: 0, minute: 0 }));
    assert_eq!(parse_time_of_day("12pm"), Some(TimeOfDay { hour: 12, minute: 0 }));
    assert_eq!(parse_time_of_day("12:30PM"), Some(TimeOfDay { hour: 12, minute: 30 }));
    assert_eq!(parse_time_of_day("3:05 am"), Some(TimeOfDay { hour: 3, minute: 5 }));
    assert_eq!(parse_time_of_day("25am"), None);
    assert_eq!(parse_time_of_day("8:61am"), None);
    assert_eq!(parse_time_of_day("8xm"), None);
    assert_eq!(parse_time_of_day("am"), None);
}
