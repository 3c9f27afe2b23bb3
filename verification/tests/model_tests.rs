use doing::container::DoingFile;
use doing::model::Entry;
use doing::section::Section;
use doing::time::Timestamp;

#[test]
fn test_section_from_str() {
    assert_eq!(Section::parse("Currently:"), Section::Currently);
    assert_eq!(Section::parse("later"), Section::Later);
    assert_eq!(Section::parse("Archive:"), Section::Archive);
    assert_eq!(Section::parse("Work:"), Section::Custom("Work".to_string()));
}

#[test]
fn test_section_to_taskpaper() {
    assert_eq!(Section::Currently.to_taskpaper(), "Currently:");
    assert_eq!(Section::Later.to_taskpaper(), "Later:");
    assert_eq!(
        Section::Custom("Project".to_string()).to_taskpaper(),
        "Project:"
    );
}

#[test]
fn test_new_entry() {
    let entry = Entry::new("Test task".to_string(), "Currently".to_string());
    assert_eq!(entry.description, "Test task");
    assert_eq!(entry.section, "Currently");
    assert!(entry.tags.is_empty());
    assert!(entry.note.is_none());
}

#[test]
fn test_taskpaper_format() {
    let mut entry = Entry::new("Write tests".to_string(), "Currently".to_string())
        .with_tag("priority".to_string(), Some("high".to_string()))
        .with_note("This is important".to_string());

    let output = entry.to_taskpaper();
    assert!(output.starts_with(" - "));
    assert!(output.contains(" | Write tests @priority(high) <"));
    assert!(output.contains("\n  This is important"));

    entry.mark_done();
    let output = entry.to_taskpaper();
    assert!(output.contains("@done("));
}

#[test]
fn test_doing_file_new() {
    let file = DoingFile::new();
    assert!(file.has_section("Currently"));
    assert_eq!(file.sections.len(), 1);
}

#[test]
fn test_add_and_get_entries() {
    let mut file = DoingFile::new();
    let entry1 = Entry::new("Task 1".to_string(), "Currently".to_string());
    let entry2 = Entry::new("Task 2".to_string(), "Archive".to_string());

    file.add_entry(entry1);
    file.add_entry(entry2);

    assert_eq!(file.get_entries("Currently").unwrap().len(), 1);
    assert_eq!(file.get_entries("Archive").unwrap().len(), 1);
    assert_eq!(file.get_all_entries().len(), 2);
}

#[test]
fn test_taskpaper_output() {
    let mut file = DoingFile::new();
    file.add_entry(Entry::new(
        "Current task".to_string(),
        "Currently".to_string(),
    ));
    file.add_entry(Entry::new("Archived task".to_string(), "Archive".to_string()));

    let output = file.to_taskpaper();
    assert!(output.contains("Currently:"));
    assert!(output.contains(" | Current task <"));
    assert!(output.contains("Archive:"));
    assert!(output.contains(" | Archived task <"));
}

#[test]
fn test_fresh_entry_id_shape() {
    let entry = Entry::new("x".to_string(), "Currently".to_string());
    assert_eq!(entry.id.len(), 36);
    for (i, c) in entry.id.chars().enumerate() {
        if i == 8 || i == 13 || i == 18 || i == 23 {
            assert_eq!(c, '-');
        } else {
            assert!(c.is_ascii_hexdigit() && !c.is_ascii_uppercase());
        }
    }
}

#[test]
fn test_done_tag_presence() {
    // inserting a done tag, with or without a value, marks the entry
    // complete; removing it marks it incomplete again
    let mut entry = Entry::new("work".to_string(), "Currently".to_string());
    assert!(!entry.is_done());
    entry.insert_tag("done".to_string(), None);
    assert!(entry.is_done());
    entry.remove_tag("done");
    assert!(!entry.is_done());
    entry.insert_tag("done".to_string(), Some("2025-01-01 11:00".to_string()));
    assert!(entry.is_done());
    entry.remove_tag("done");
    assert!(!entry.is_done());
}

#[test]
fn test_insert_tag_overwrites() {
    let mut entry = Entry::new("work".to_string(), "Currently".to_string());
    entry.insert_tag("priority".to_string(), Some("low".to_string()));
    entry.insert_tag("priority".to_string(), Some("high".to_string()));
    assert_eq!(entry.tags.len(), 1);
    assert_eq!(
        entry.get_tag("priority"),
        Some(&Some("high".to_string()))
    );
}

#[test]
fn test_recent_entries_sorted() {
    let mut file = DoingFile::new();
    let ts = |h: u8| Timestamp { year: 2025, month: 1, day: 2, hour: h, minute: 0 };
    file.add_entry(Entry::new("a".to_string(), "Currently".to_string()).with_timestamp(ts(9)));
    file.add_entry(Entry::new("b".to_string(), "Currently".to_string()).with_timestamp(ts(11)));
    file.add_entry(Entry::new("c".to_string(), "Currently".to_string()).with_timestamp(ts(10)));
    let recent = file.get_recent_entries(2);
    assert_eq!(recent.len(), 2);
    assert_eq!(recent[0].description, "b");
    assert_eq!(recent[1].description, "c");
}

#[test]
fn test_last_entry_latest_wins() {
    let mut file = DoingFile::new();
    let ts = |h: u8| Timestamp { year: 2025, month: 3, day: 2, hour: h, minute: 0 };
    file.add_entry(Entry::new("a".to_string(), "Currently".to_string()).with_timestamp(ts(9)));
    file.add_entry(Entry::new("b".to_string(), "Later".to_string()).with_timestamp(ts(12)));
    let last = file.get_last_entry().unwrap();
    assert_eq!(last.description, "b");
}

#[test]
fn test_sections_add_and_remove() {
    let mut file = DoingFile::new();
    assert!(file.add_section("Work").is_ok());
    assert!(file.add_section("Work").is_err());
    assert!(file.remove_section("Currently", false).is_err());
    assert!(file.remove_section("Missing", false).is_err());
    assert!(file.remove_section("Work", false).is_ok());
    assert!(!file.has_section("Work"));
}

#[test]
fn test_remove_section_archives_entries() {
    let mut file = DoingFile::new();
    file.add_section("Work").unwrap();
    let ts = Timestamp { year: 2025, month: 5, day: 6, hour: 7, minute: 8 };
    file.add_entry(Entry::new("job".to_string(), "Work".to_string()).with_timestamp(ts));
    file.remove_section("Work", true).unwrap();
    assert!(!file.has_section("Work"));
    let archived = file.get_entries("Archive").unwrap();
    assert_eq!(archived.len(), 1);
    assert_eq!(archived[0].description, "job");
    assert_eq!(archived[0].section, "Archive");
}

#[test]
fn test_toggle_done_by_uuid() {
    let mut file = DoingFile::new();
    let entry = Entry::new("flip me".to_string(), "Currently".to_string());
    let id = entry.id.clone();
    file.add_entry(entry);

    let toggled = file.toggle_done_by_uuid(&id).unwrap();
    assert!(toggled.is_done());
    let toggled_back = file.toggle_done_by_uuid(&id).unwrap();
    assert!(!toggled_back.is_done());
    assert!(file.toggle_done_by_uuid("no-such-id").is_err());
}

#[test]
fn test_delete_by_uuid() {
    let mut file = DoingFile::new();
    let entry = Entry::new("remove me".to_string(), "Currently".to_string());
    let id = entry.id.clone();
    file.add_entry(entry);

    assert!(file.delete_by_uuid(&id).is_ok());
    assert_eq!(file.get_entries("Currently").unwrap().len(), 0);
    assert!(file.delete_by_uuid(&id).is_err());
}

#[test]
fn test_update_entry_text() {
    let mut file = DoingFile::new();
    let entry = Entry::new("before".to_string(), "Currently".to_string());
    let id = entry.id.clone();
    file.add_entry(entry);

    let updated = file
        .update_entry_description(&id, "after".to_string())
        .unwrap();
    assert_eq!(updated.description, "after");
    let noted = file
        .update_entry_note(&id, Some("a note".to_string()))
        .unwrap();
    assert_eq!(noted.note, Some("a note".to_string()));
    let entry = file.get_entry_by_id(&id).unwrap();
    assert_eq!(entry.description, "after");
    assert_eq!(entry.note, Some("a note".to_string()));
}

#[test]
fn test_tag_counts() {
    let mut file = DoingFile::new();
    let ts = Timestamp { year: 2025, month: 1, day: 1, hour: 9, minute: 0 };
    file.add_entry(
        Entry::new("a".to_string(), "Currently".to_string())
            .with_timestamp(ts)
            .with_tag("urgent".to_string(), None)
            .with_tag("work".to_string(), None),
    );
    file.add_entry(
        Entry::new("b".to_string(), "Later".to_string())
            .with_timestamp(ts)
            .with_tag("work".to_string(), Some("x".to_string())),
    );
    let mut tally = file.tag_counts();
    tally.sort();
    assert_eq!(tally, vec![("urgent".to_string(), 1), ("work".to_string(), 2)]);
}

#[test]
fn test_mark_done_keeps_other_tags() {
    let mut entry = Entry::new("work".to_string(), "Currently".to_string())
        .with_tag("urgent".to_string(), None)
        .with_tag("done".to_string(), Some("old stamp".to_string()));
    entry.mark_done();
    assert_eq!(entry.tags.len(), 2);
    assert!(entry.has_tag("urgent"));
    // the done value was overwritten with a rendered timestamp
    let value = entry.get_tag("done").unwrap().clone().unwrap();
    assert_eq!(value.len(), 16);
    assert_ne!(value, "old stamp");
}

#[test]
fn test_toggle_done_keeps_entry() {
    let mut file = DoingFile::new();
    let ts = Timestamp { year: 2025, month: 4, day: 5, hour: 6, minute: 7 };
    let entry = Entry::new("steady".to_string(), "Currently".to_string())
        .with_timestamp(ts)
        .with_tag("urgent".to_string(), None)
        .with_note("keep me".to_string());
    let id = entry.id.clone();
    file.add_entry(entry);

    let toggled = file.toggle_done_by_uuid(&id).unwrap();
    assert_eq!(toggled.id, id);
    assert_eq!(toggled.description, "steady");
    assert_eq!(toggled.timestamp, ts);
    assert_eq!(toggled.note, Some("keep me".to_string()));
    assert!(toggled.has_tag("urgent"));
    assert!(toggled.is_done());

    let back = file.toggle_done_by_uuid(&id).unwrap();
    assert!(back.has_tag("urgent"));
    assert!(!back.is_done());
    assert_eq!(back.tags.len(), 1);
}

#[test]
fn test_remove_empty_section_archive_flag() {
    // archiving an empty section creates no archive section
    let mut file = DoingFile::new();
    file.add_section("Idle").unwrap();
    file.remove_section("Idle", true).unwrap();
    assert!(!file.has_section("Idle"));
    assert!(!file.has_section("Archive"));
}
