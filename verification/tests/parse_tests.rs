use doing::container::DoingFile;
use doing::model::Entry;
use doing::parser::parse;
use doing::time::Timestamp;

#[test]
fn test_parse_empty_file() {
    // absent content yields a fresh log seeded with the default section
    let result = parse("");
    assert_eq!(result.sections.len(), 1);
    assert!(result.has_section("Currently"));
}

#[test]
fn test_parse_taskpaper_content() {
    let mut content = String::new();
    content.push_str("Currently:\n");
    content.push_str(" - 2025-07-28 16:24 | Working on parser @in_progress <7a1185c6-0241-52ac-0771-83f31c40acdd>\n");
    content.push_str("  This is a note\n");
    content.push_str(" - 2025-07-28 12:28 | Completed task @done(2025-07-28 13:58) <e520e775-3401-241c-b8d2-ef3ad6ba3fa7>\n");
    content.push_str("\n");
    content.push_str("Archive:\n");
    content.push_str(" - 2025-07-28 09:37 | Archived task @priority(high) <ff20b760-b698-fe0b-d7a8-00213cb6cc3f>\n");

    let result = parse(&content);

    let currently = result.get_entries("Currently").unwrap();
    assert_eq!(currently.len(), 2);
    assert_eq!(currently[0].description, "Working on parser");
    assert!(currently[0].has_tag("in_progress"));
    assert_eq!(currently[0].note, Some("This is a note".to_string()));

    let archive = result.get_entries("Archive").unwrap();
    assert_eq!(archive.len(), 1);
    assert_eq!(archive[0].description, "Archived task");
    assert_eq!(
        archive[0].get_tag("priority"),
        Some(&Some("high".to_string()))
    );
}

#[test]
fn test_parse_fields() {
    let content = "Work:\n - 2025-01-02 03:04 | Fix the latch @a @b(two words) <11111111-2222-3333-4444-555555555555>";
    let file = parse(content);
    let entries = file.get_entries("Work").unwrap();
    assert_eq!(entries.len(), 1);
    let e = &entries[0];
    assert_eq!(e.description, "Fix the latch");
    assert_eq!(
        e.timestamp,
        Timestamp { year: 2025, month: 1, day: 2, hour: 3, minute: 4 }
    );
    assert_eq!(e.id, "11111111-2222-3333-4444-555555555555");
    assert!(e.has_tag("a"));
    assert_eq!(e.get_tag("b"), Some(&Some("two words".to_string())));
    assert_eq!(e.section, "Work");
}

#[test]
fn test_parse_task_line_follows_task_line() {
    // a task line right after another closes the first entry
    let content = "Currently:\n - 2025-01-01 09:00 | first <11111111-1111-1111-1111-111111111111>\n - 2025-01-01 10:00 | second <22222222-2222-2222-2222-222222222222>";
    let file = parse(content);
    let entries = file.get_entries("Currently").unwrap();
    assert_eq!(entries.len(), 2);
    assert_eq!(entries[0].description, "first");
    assert_eq!(entries[1].description, "second");
}

#[test]
fn test_parse_multi_line_note() {
    let content = "Currently:\n - 2025-01-01 09:00 | noted <11111111-1111-1111-1111-111111111111>\n  line one\n  line two";
    let file = parse(content);
    let entries = file.get_entries("Currently").unwrap();
    assert_eq!(entries[0].note, Some("line one\nline two".to_string()));
}

#[test]
fn test_parse_skips_malformed_lines() {
    let content = "Currently:\nnot a task line at all\n - 2025-01-01 09:00 | kept <11111111-1111-1111-1111-111111111111>";
    let file = parse(content);
    let entries = file.get_entries("Currently").unwrap();
    assert_eq!(entries.len(), 1);
    assert_eq!(entries[0].description, "kept");
}

#[test]
fn test_parse_bad_timestamp_falls_back() {
    // the date names no real day, so the entry still parses with a fresh
    // current timestamp rather than being dropped
    let content = "Currently:\n - 2025-02-31 09:00 | odd date <11111111-1111-1111-1111-111111111111>";
    let file = parse(content);
    let entries = file.get_entries("Currently").unwrap();
    assert_eq!(entries.len(), 1);
    assert_eq!(entries[0].description, "odd date");
    assert_ne!(
        entries[0].timestamp,
        Timestamp { year: 2025, month: 2, day: 31, hour: 9, minute: 0 }
    );
}

#[test]
fn test_parse_bad_id_gets_fresh_one() {
    // hyphens in the wrong places: a fresh id is generated instead
    let content = "Currently:\n - 2025-01-01 09:00 | odd id <111111111111111111111111111111111111>";
    let file = parse(content);
    let entries = file.get_entries("Currently").unwrap();
    assert_eq!(entries.len(), 1);
    assert_ne!(entries[0].id, "111111111111111111111111111111111111");
    assert_eq!(entries[0].id.len(), 36);
}

#[test]
fn test_parse_empty_section_kept() {
    let content = "Currently:\n\nEmptyOne:\n\nWork:\n - 2025-01-01 09:00 | x <11111111-1111-1111-1111-111111111111>";
    let file = parse(content);
    assert!(file.has_section("EmptyOne"));
    assert_eq!(file.get_entries("EmptyOne").unwrap().len(), 0);
}

#[test]
fn test_round_trip_concrete() {
    // parse(serialize(x)) reproduces x, field for field
    let mut file = DoingFile::new();
    let ts1 = Timestamp { year: 2025, month: 1, day: 1, hour: 9, minute: 0 };
    let ts2 = Timestamp { year: 2025, month: 1, day: 2, hour: 10, minute: 30 };
    file.add_entry(
        Entry::new("Fix bug".to_string(), "Currently".to_string())
            .with_timestamp(ts1)
            .with_tag("urgent".to_string(), None),
    );
    file.add_entry(
        Entry::new("Write docs".to_string(), "Work".to_string())
            .with_timestamp(ts2)
            .with_tag("done".to_string(), Some("2025-01-02 11:00".to_string()))
            .with_note("first line\nsecond line".to_string()),
    );

    let text = file.to_taskpaper();
    let back = parse(&text);

    assert_eq!(back.sections.len(), file.sections.len());
    for (orig_sec, new_sec) in file.sections.iter().zip(back.sections.iter()) {
        assert_eq!(orig_sec.name, new_sec.name);
        assert_eq!(orig_sec.entries.len(), new_sec.entries.len());
        for (a, b) in orig_sec.entries.iter().zip(new_sec.entries.iter()) {
            assert_eq!(a.description, b.description);
            assert_eq!(a.timestamp, b.timestamp);
            assert_eq!(a.section, b.section);
            assert_eq!(a.note, b.note);
            assert_eq!(a.id, b.id);
            assert_eq!(a.tags.len(), b.tags.len());
            for t in a.tags.iter() {
                assert_eq!(b.tags.iter().find(|u| u.name == t.name).map(|u| &u.value), Some(&t.value));
            }
        }
    }
}

#[test]
fn test_serialize_idempotent_concrete() {
    // serialize(parse(serialize(x))) == serialize(x)
    let mut file = DoingFile::new();
    let ts = Timestamp { year: 2024, month: 12, day: 31, hour: 23, minute: 59 };
    file.add_entry(
        Entry::new("Year end".to_string(), "Currently".to_string())
            .with_timestamp(ts)
            .with_tag("party".to_string(), Some("loud".to_string()))
            .with_note("bring snacks".to_string()),
    );
    let once = file.to_taskpaper();
    let twice = parse(&once).to_taskpaper();
    assert_eq!(once, twice);
}

#[test]
fn test_parse_header_trimmed() {
    // a header is recognized after trimming surrounding whitespace
    let content = "  Work:  \n - 2025-01-01 09:00 | x <11111111-1111-1111-1111-111111111111>";
    let file = parse(content);
    assert!(file.has_section("Work"));
    assert_eq!(file.get_entries("Work").unwrap().len(), 1);
}

#[test]
fn test_round_trip_empty_note_line() {
    // an empty interior note line survives the round trip
    let mut file = DoingFile::new();
    let ts = Timestamp { year: 2025, month: 6, day: 1, hour: 8, minute: 0 };
    file.add_entry(
        Entry::new("spaced note".to_string(), "Currently".to_string())
            .with_timestamp(ts)
            .with_note("first\n\nthird".to_string()),
    );
    let text = file.to_taskpaper();
    let back = parse(&text);
    let entries = back.get_entries("Currently").unwrap();
    assert_eq!(entries[0].note, Some("first\n\nthird".to_string()));
    assert_eq!(text, back.to_taskpaper());
}
