use doing::container::DoingFile;
use doing::filtering::{filter_entries, BoolOp, FilterError, FilterOptions, TimeBound};
use doing::model::Entry;
use doing::parser::parse;
use doing::textmatch::CaseSensitivity;
use doing::time::{TimeOfDay, Timestamp};

fn base_options() -> FilterOptions {
    FilterOptions::default()
}

fn sample_file() -> DoingFile {
    let mut file = DoingFile::new();
    let ts = |d: u8, h: u8| Timestamp { year: 2025, month: 1, day: d, hour: h, minute: 15 };
    file.add_entry(
        Entry::new("bug fix".to_string(), "Currently".to_string()).with_timestamp(ts(1, 8)),
    );
    file.add_entry(
        Entry::new("Bug Fix".to_string(), "Currently".to_string()).with_timestamp(ts(2, 7)),
    );
    file.add_entry(
        Entry::new("write docs".to_string(), "Work".to_string())
            .with_timestamp(ts(3, 12))
            .with_tag("priority".to_string(), Some("high".to_string()))
            .with_tag("prio".to_string(), None)
            .with_tag("low".to_string(), None),
    );
    file
}

#[test]
fn test_smart_case_search() {
    // "Bug" holds an uppercase letter, so smart case is case-sensitive:
    // only "Bug Fix" matches; "bug" matches both descriptions
    let file = sample_file();
    let mut opts = base_options();
    opts.search = Some("Bug".to_string());
    let hits = filter_entries(&file, &opts).unwrap();
    assert_eq!(hits.len(), 1);
    assert_eq!(hits[0].1.description, "Bug Fix");

    opts.search = Some("bug".to_string());
    let hits = filter_entries(&file, &opts).unwrap();
    assert_eq!(hits.len(), 2);
}

#[test]
fn test_case_policies() {
    let file = sample_file();
    let mut opts = base_options();
    opts.search = Some("BUG".to_string());
    opts.case = CaseSensitivity::Ignore;
    assert_eq!(filter_entries(&file, &opts).unwrap().len(), 2);
    opts.case = CaseSensitivity::CaseSensitive;
    assert_eq!(filter_entries(&file, &opts).unwrap().len(), 0);
}

#[test]
fn test_exact_search() {
    let file = sample_file();
    // a leading quote asks for whole-text equality, not substring: "fix"
    // alone matches nothing even though both descriptions contain it
    let mut opts = base_options();
    opts.search = Some("'fix".to_string());
    assert_eq!(filter_entries(&file, &opts).unwrap().len(), 0);

    // under smart case a lowercase exact query still folds case
    opts.search = Some("'bug fix".to_string());
    assert_eq!(filter_entries(&file, &opts).unwrap().len(), 2);

    // case-sensitive exact equality pins one entry
    opts.case = CaseSensitivity::CaseSensitive;
    let hits = filter_entries(&file, &opts).unwrap();
    assert_eq!(hits.len(), 1);
    assert_eq!(hits[0].1.description, "bug fix");

    // the exact flag without the quote prefix behaves the same
    let mut opts = base_options();
    opts.search = Some("bug fix".to_string());
    opts.exact = true;
    opts.case = CaseSensitivity::CaseSensitive;
    assert_eq!(filter_entries(&file, &opts).unwrap().len(), 1);
}

#[test]
fn test_wildcard_tag_pattern() {
    // "pri*" matches the stored names "priority" and "prio" but not "low"
    let file = sample_file();
    let mut opts = base_options();
    opts.tags = vec!["pri*".to_string()];
    let hits = filter_entries(&file, &opts).unwrap();
    assert_eq!(hits.len(), 1);
    assert_eq!(hits[0].1.description, "write docs");

    let mut opts = base_options();
    opts.tags = vec!["l?w".to_string()];
    let hits = filter_entries(&file, &opts).unwrap();
    assert_eq!(hits.len(), 1);

    let mut opts = base_options();
    opts.tags = vec!["pri".to_string()];
    let hits = filter_entries(&file, &opts).unwrap();
    assert_eq!(hits.len(), 0);
}

#[test]
fn test_pattern_tag_grammar() {
    // "+urgent" requires the tag, "-done" excludes it, whatever else is set
    let mut file = DoingFile::new();
    let ts = Timestamp { year: 2025, month: 1, day: 1, hour: 9, minute: 0 };
    file.add_entry(
        Entry::new("a".to_string(), "Currently".to_string())
            .with_timestamp(ts)
            .with_tag("urgent".to_string(), None)
            .with_tag("extra".to_string(), None),
    );
    file.add_entry(
        Entry::new("b".to_string(), "Currently".to_string())
            .with_timestamp(ts)
            .with_tag("urgent".to_string(), None)
            .with_tag("done".to_string(), None),
    );
    file.add_entry(
        Entry::new("c".to_string(), "Currently".to_string())
            .with_timestamp(ts)
            .with_tag("done".to_string(), None),
    );
    let mut opts = base_options();
    opts.tags = vec!["+urgent".to_string(), "-done".to_string()];
    let hits = filter_entries(&file, &opts).unwrap();
    assert_eq!(hits.len(), 1);
    assert_eq!(hits[0].1.description, "a");
}

#[test]
fn test_boolean_strategies() {
    let file = sample_file();
    let mut opts = base_options();
    opts.tags = vec!["priority".to_string(), "missing".to_string()];
    opts.bool_op = BoolOp::And;
    assert_eq!(filter_entries(&file, &opts).unwrap().len(), 0);
    opts.bool_op = BoolOp::Or;
    assert_eq!(filter_entries(&file, &opts).unwrap().len(), 1);
    opts.bool_op = BoolOp::Not;
    assert_eq!(filter_entries(&file, &opts).unwrap().len(), 2);
}

#[test]
fn test_boolean_strategies_ignore_prefixes() {
    // under the explicit strategies a +/- prefix is not part of the name
    let file = sample_file();
    let mut opts = base_options();
    opts.tags = vec!["+priority".to_string()];
    opts.bool_op = BoolOp::And;
    let hits = filter_entries(&file, &opts).unwrap();
    assert_eq!(hits.len(), 1);
    assert_eq!(hits[0].1.description, "write docs");

    opts.tags = vec!["-priority".to_string(), "+missing".to_string()];
    opts.bool_op = BoolOp::Or;
    assert_eq!(filter_entries(&file, &opts).unwrap().len(), 1);

    opts.tags = vec!["+priority".to_string()];
    opts.bool_op = BoolOp::Not;
    assert_eq!(filter_entries(&file, &opts).unwrap().len(), 2);
}

#[test]
fn test_time_of_day_bound() {
    // a bare 08:00 bound matches 08:15 on any day and rejects 07:59
    let mut file = DoingFile::new();
    file.add_entry(
        Entry::new("early".to_string(), "Currently".to_string()).with_timestamp(Timestamp {
            year: 2021,
            month: 6,
            day: 9,
            hour: 7,
            minute: 59,
        }),
    );
    file.add_entry(
        Entry::new("later".to_string(), "Currently".to_string()).with_timestamp(Timestamp {
            year: 2019,
            month: 2,
            day: 3,
            hour: 8,
            minute: 15,
        }),
    );
    let mut opts = base_options();
    opts.after = Some(TimeBound::TimeOnly(TimeOfDay { hour: 8, minute: 0 }));
    let hits = filter_entries(&file, &opts).unwrap();
    assert_eq!(hits.len(), 1);
    assert_eq!(hits[0].1.description, "later");
}

#[test]
fn test_absolute_bounds_and_range() {
    let file = sample_file();
    let mut opts = base_options();
    opts.after = Some(TimeBound::Absolute(Timestamp {
        year: 2025,
        month: 1,
        day: 2,
        hour: 0,
        minute: 0,
    }));
    assert_eq!(filter_entries(&file, &opts).unwrap().len(), 2);

    let mut opts = base_options();
    opts.from = Some((
        Timestamp { year: 2025, month: 1, day: 2, hour: 0, minute: 0 },
        Some(Timestamp { year: 2025, month: 1, day: 2, hour: 23, minute: 0 }),
    ));
    let hits = filter_entries(&file, &opts).unwrap();
    assert_eq!(hits.len(), 1);
    assert_eq!(hits[0].1.description, "Bug Fix");
}

#[test]
fn test_sections_scope() {
    let file = sample_file();
    let mut opts = base_options();
    opts.sections = vec!["Work".to_string()];
    let hits = filter_entries(&file, &opts).unwrap();
    assert_eq!(hits.len(), 1);
    assert_eq!(hits[0].0, "Work");

    opts.sections = vec!["NoSuch".to_string()];
    assert_eq!(filter_entries(&file, &opts).unwrap().len(), 0);
}

#[test]
fn test_invert_partitions_by_id() {
    // the filtered set and its inversion cover the scope exactly, with no
    // id in both
    let file = sample_file();
    let mut opts = base_options();
    opts.search = Some("bug".to_string());
    let hits = filter_entries(&file, &opts).unwrap();
    let mut inv_opts = opts.clone();
    inv_opts.not = true;
    let inverted = filter_entries(&file, &inv_opts).unwrap();

    let all = file.get_all_entries();
    assert_eq!(hits.len() + inverted.len(), all.len());
    for e in all.iter() {
        let in_hits = hits.iter().any(|(_, h)| h.id == e.id);
        let in_inv = inverted.iter().any(|(_, h)| h.id == e.id);
        assert!(in_hits != in_inv);
    }
}

#[test]
fn test_bad_regex_is_an_error() {
    let file = sample_file();
    let mut opts = base_options();
    opts.search = Some("/unclosed(/".to_string());
    let err = filter_entries(&file, &opts).unwrap_err();
    let FilterError::InvalidPattern(p) = err;
    assert!(p.contains("unclosed("));
}

#[test]
fn test_end_to_end_example() {
    let mut content = String::new();
    content.push_str("Currently:\n");
    content.push_str(
        " - 2025-01-01 09:00 | Fix bug @urgent <11111111-1111-1111-1111-111111111111>\n",
    );
    content.push_str(" - 2025-01-01 10:00 | Write docs @done(2025-01-01 11:00) <22222222-2222-2222-2222-222222222222>\n");
    let file = parse(&content);

    let mut opts = base_options();
    opts.tags = vec!["+urgent".to_string()];
    let hits = filter_entries(&file, &opts).unwrap();
    assert_eq!(hits.len(), 1);
    assert_eq!(hits[0].1.description, "Fix bug");

    let mut opts = base_options();
    opts.only_timed = true;
    let hits = filter_entries(&file, &opts).unwrap();
    assert_eq!(hits.len(), 1);
    assert_eq!(hits[0].1.description, "Write docs");

    let mut opts = base_options();
    opts.search = Some("/^Fix/".to_string());
    let hits = filter_entries(&file, &opts).unwrap();
    assert_eq!(hits.len(), 1);
    assert_eq!(hits[0].1.description, "Fix bug");
}

#[test]
fn test_regex_search_reaches_notes() {
    let mut file = DoingFile::new();
    let ts = Timestamp { year: 2025, month: 1, day: 1, hour: 9, minute: 0 };
    file.add_entry(
        Entry::new("plain".to_string(), "Currently".to_string())
            .with_timestamp(ts)
            .with_note("the magic word".to_string()),
    );
    let mut opts = base_options();
    opts.search = Some("/magic/".to_string());
    assert_eq!(filter_entries(&file, &opts).unwrap().len(), 1);
}
