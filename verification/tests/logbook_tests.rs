use wrk::calendar::{Date, Time};
use wrk::config::Config;
use wrk::entry::{parse_entry_line, render_entry_line, render_entry_line_with_date};
use wrk::layout::lint_day_text;
use wrk::logbook::{
    DayDocument, Entry, NewEntry, amend_last_in_document, append_entry_now, append_to_document,
    build_new_entry,
    last_entry_line_number, parse_day_document, serialize_day_document,
};

fn test_config() -> Config {
    Config {
        log_dir: "/tmp/wrk-test".to_string(),
        default_project: None,
        default_type: "note".to_string(),
        types: vec!["note".to_string(), "build".to_string()],
        editor: Some("true".to_string()),
    }
}

fn march_4() -> Date {
    Date { year: 2026, month: 3, day: 4 }
}

fn at(hour: u32, minute: u32) -> Time {
    Time { hour, minute }
}

fn new_entry(project: Option<&str>, kind: &str, summary: &str, details: &[&str]) -> NewEntry {
    NewEntry {
        project: project.map(|p| p.to_string()),
        kind: kind.to_string(),
        summary: summary.to_string(),
        details: details.iter().map(|d| d.to_string()).collect(),
    }
}

#[test]
fn entry_line_round_trips() {
    let timestamp = at(9, 15);
    let rendered = render_entry_line(&timestamp, Some("api"), "note", "shipped :rocket:");
    assert_eq!(rendered, "- 09:15 api:note shipped :rocket:");
    let parsed = parse_entry_line(&rendered).unwrap();
    assert_eq!(parsed.project, Some("api".to_string()));
    assert_eq!(parsed.kind, "note");
}

#[test]
fn expands_emoji_shortcodes_in_entries() {
    let config = test_config();
    let entry = build_new_entry(&config, None, None, "Lunch :taco:").unwrap();
    assert_eq!(entry.summary, "Lunch 🌮");
}

#[test]
fn parses_and_preserves_note_section() {
    let raw = "# 2026-03-04\n\n## Work Log\n\n- 09:15 :note started\n  extra\n\n## Notes\n\nhello\n";
    let doc = parse_day_document(&march_4(), raw).unwrap();
    assert_eq!(doc.entries.len(), 1);
    assert_eq!(doc.entries[0].details, vec!["extra"]);
    assert_eq!(doc.notes, "\nhello");
}

#[test]
fn entry_line_without_project_keeps_empty_field() {
    let line = render_entry_line(&at(9, 15), None, "note", "Investigated flaky integration test");
    assert_eq!(line, "- 09:15 :note Investigated flaky integration test");
    let parsed = parse_entry_line(&line).unwrap();
    assert_eq!(parsed.project, None);
    assert_eq!(parsed.timestamp, at(9, 15));
    assert_eq!(parsed.summary, "Investigated flaky integration test");
}

#[test]
fn entry_lines_that_are_not_entries_are_refused() {
    assert!(parse_entry_line("- 9:15 api:note x").is_none());
    assert!(parse_entry_line("- 24:00 api:note x").is_none());
    assert!(parse_entry_line("- 09:15 api note x").is_none());
    assert!(parse_entry_line("- 09:15 api: x").is_none());
    assert!(parse_entry_line("- 09:15 a b:note x").is_none());
    assert!(parse_entry_line("- 09:15 api:note ").is_none());
    assert!(parse_entry_line("  extra").is_none());
}

#[test]
fn dated_entry_line_drops_double_space() {
    let line = render_entry_line_with_date(&march_4(), &at(11, 30), None, "note", "Reviewed plan");
    assert_eq!(line, "- 2026-03-04 11:30 :note Reviewed plan");
    let line = render_entry_line_with_date(&march_4(), &at(11, 30), Some("api"), "build", "Cut");
    assert_eq!(line, "- 2026-03-04 11:30 api:build Cut");
}

#[test]
fn messages_become_summary_and_continuation_lines() {
    let config = test_config();
    let entry = build_new_entry(&config, Some("cli"), None, "  Built release \r\nNeed to follow up on docs  \n").unwrap();
    assert_eq!(entry.project, Some("cli".to_string()));
    assert_eq!(entry.kind, "note");
    assert_eq!(entry.summary, "Built release");
    assert_eq!(entry.details, vec!["Need to follow up on docs"]);
    assert_eq!(build_new_entry(&config, None, None, "  \nmore").unwrap_err().to_string(), "entry cannot be empty");
    assert_eq!(build_new_entry(&config, None, None, "").unwrap_err().to_string(), "entry cannot be empty");
    assert!(build_new_entry(&config, None, Some("meeting"), "x").is_err());
    assert_eq!(
        build_new_entry(&config, Some("a b"), None, "x").unwrap_err().to_string(),
        "project `a b` cannot contain whitespace or `:`"
    );
}

#[test]
fn unknown_shortcodes_stay_as_written() {
    let config = test_config();
    let entry = build_new_entry(&config, None, None, "ship :rocket: and :not_an_emoji_here:").unwrap();
    assert_eq!(entry.summary, "ship 🚀 and :not_an_emoji_here:");
}

#[test]
fn serializes_day_file_layout() {
    let mut doc = DayDocument::empty(march_4());
    append_to_document(&mut doc, at(9, 15), new_entry(Some("api"), "note", "started", &["extra"]));
    append_to_document(&mut doc, at(11, 30), new_entry(None, "build", "cut", &[]));
    assert_eq!(
        serialize_day_document(&doc),
        "# 2026-03-04\n\n## Work Log\n\n- 09:15 api:note started\n  extra\n- 11:30 :build cut\n\n## Notes\n\n"
    );
    doc.notes = "\nFree-form notes".to_string();
    assert_eq!(
        serialize_day_document(&doc),
        "# 2026-03-04\n\n## Work Log\n\n- 09:15 api:note started\n  extra\n- 11:30 :build cut\n\n## Notes\n\nFree-form notes\n"
    );
}

#[test]
fn appended_entry_reads_back_after_the_others() {
    let mut doc = DayDocument::empty(march_4());
    append_to_document(&mut doc, at(9, 15), new_entry(Some("api"), "note", "started", &[]));
    let reloaded = parse_day_document(&march_4(), &serialize_day_document(&doc)).unwrap();
    let mut doc = reloaded;
    append_to_document(&mut doc, at(10, 0), new_entry(None, "build", "second", &["detail one"]));
    let reloaded = parse_day_document(&march_4(), &serialize_day_document(&doc)).unwrap();
    assert_eq!(reloaded.entries, doc.entries);
    assert_eq!(reloaded.entries.len(), 2);
    assert_eq!(
        reloaded.entries[1],
        Entry {
            date: march_4(),
            timestamp: at(10, 0),
            project: None,
            kind: "build".to_string(),
            summary: "second".to_string(),
            details: vec!["detail one".to_string()],
        }
    );
}

#[test]
fn amend_keeps_time_of_last_entry() {
    let mut doc = DayDocument::empty(march_4());
    assert_eq!(
        amend_last_in_document(&mut doc, new_entry(None, "note", "x", &[])).unwrap_err().to_string(),
        "no entries found for 2026-03-04"
    );
    append_to_document(&mut doc, at(9, 15), new_entry(Some("api"), "note", "first", &[]));
    append_to_document(&mut doc, at(10, 45), new_entry(Some("api"), "note", "second", &[]));
    amend_last_in_document(&mut doc, new_entry(Some("web"), "build", "fixed", &["why"])).unwrap();
    assert_eq!(doc.entries.len(), 2);
    assert_eq!(doc.entries[0].summary, "first");
    assert_eq!(doc.entries[1].timestamp, at(10, 45));
    assert_eq!(doc.entries[1].project, Some("web".to_string()));
    assert_eq!(doc.entries[1].summary, "fixed");
    let reloaded = parse_day_document(&march_4(), &serialize_day_document(&doc)).unwrap();
    assert_eq!(reloaded.entries, doc.entries);
}

#[test]
fn notes_are_kept_through_saves() {
    let raw = "# 2026-03-04\n\n## Work Log\n\n- 09:15 :note started\n\n## Notes\n\nhello\n";
    let doc = parse_day_document(&march_4(), raw).unwrap();
    assert_eq!(doc.notes, "\nhello");
    let saved = serialize_day_document(&doc);
    assert_eq!(saved, raw);
    let again = parse_day_document(&march_4(), &saved).unwrap();
    assert_eq!(again.notes, "\nhello");
    let raw = "# 2026-03-04\n\n## Work Log\n\n\n## Notes\n\n  indented\r text\n\n\nend\n\n";
    let doc = parse_day_document(&march_4(), raw).unwrap();
    assert_eq!(serialize_day_document(&doc), raw);
}

#[test]
fn carriage_returns_inside_lines_survive_a_save() {
    let mut doc = DayDocument::empty(march_4());
    append_to_document(&mut doc, at(9, 15), new_entry(None, "note", "a\rb", &["c\rd"]));
    let reloaded = parse_day_document(&march_4(), &serialize_day_document(&doc)).unwrap();
    assert_eq!(reloaded.entries, doc.entries);
}

#[test]
fn day_file_errors_are_reported() {
    let d = march_4();
    assert_eq!(parse_day_document(&d, "").unwrap_err().to_string(), "file is empty");
    assert_eq!(
        parse_day_document(&d, "# 2026-03-05\n").unwrap_err().to_string(),
        "first line must be `# 2026-03-04`"
    );
    assert_eq!(
        parse_day_document(&d, "# 2026-03-04\n## Notes\n").unwrap_err().to_string(),
        "missing `## Work Log` section"
    );
    assert_eq!(
        parse_day_document(&d, "# 2026-03-04\n## Work Log\n").unwrap_err().to_string(),
        "missing `## Notes` section"
    );
    assert_eq!(
        parse_day_document(&d, "# 2026-03-04\n## Notes\n## Work Log\n").unwrap_err().to_string(),
        "`## Notes` must appear after `## Work Log`"
    );
    assert_eq!(
        parse_day_document(&d, "# 2026-03-04\n## Work Log\nstray\n## Notes\n").unwrap_err().to_string(),
        "invalid work-log line `stray`"
    );
    assert_eq!(
        parse_day_document(&d, "# 2026-03-04\n## Work Log\n  orphan\n## Notes\n").unwrap_err().to_string(),
        "invalid work-log line `  orphan`"
    );
}

#[test]
fn crlf_files_are_read_like_lf_files() {
    let raw = "# 2026-03-04\r\n\r\n## Work Log\r\n\r\n- 09:15 api:note started\r\n  more\r\n\r\n## Notes\r\n";
    let doc = parse_day_document(&march_4(), raw).unwrap();
    assert_eq!(doc.entries.len(), 1);
    assert_eq!(doc.entries[0].details, vec!["more"]);
    assert_eq!(doc.notes, "");
}

#[test]
fn editor_line_points_at_last_entry() {
    let mut doc = DayDocument::empty(march_4());
    assert_eq!(last_entry_line_number(&doc), 5);
    append_to_document(&mut doc, at(9, 15), new_entry(None, "note", "a", &["x", "y"]));
    assert_eq!(last_entry_line_number(&doc), 5);
    append_to_document(&mut doc, at(9, 30), new_entry(None, "note", "b", &[]));
    assert_eq!(last_entry_line_number(&doc), 8);
    let text = serialize_day_document(&doc);
    let lines: Vec<&str> = text.lines().collect();
    assert_eq!(lines[8 - 1], "- 09:30 :note b");
}

#[test]
fn written_day_file_passes_doctor() {
    let mut doc = DayDocument::empty(march_4());
    append_to_document(&mut doc, at(9, 15), new_entry(Some("api"), "build", "started", &["", "x"]));
    let types = vec!["note".to_string(), "build".to_string()];
    assert!(lint_day_text(&march_4(), &serialize_day_document(&doc), &types).is_ok());
    let only_notes = vec!["note".to_string()];
    assert_eq!(
        lint_day_text(&march_4(), &serialize_day_document(&doc), &only_notes).unwrap_err().to_string(),
        "unknown type `build`"
    );
}

#[test]
fn entry_logged_now_gets_a_valid_time() {
    let mut doc = DayDocument::empty(march_4());
    let stamp = append_entry_now(&mut doc, new_entry(None, "note", "now", &[]));
    assert!(stamp.hour < 24 && stamp.minute < 60);
    assert_eq!(doc.entries.len(), 1);
    assert_eq!(doc.entries[0].timestamp, stamp);
    assert_eq!(doc.entries[0].date, march_4());
}

#[test]
fn logged_message_reads_back_as_built() {
    let config = test_config();
    let mut doc = DayDocument::empty(march_4());
    append_to_document(&mut doc, at(8, 0), new_entry(None, "note", "earlier", &[]));
    let built = build_new_entry(&config, Some("api"), Some("build"), "Cut release :rocket:
  notes here  
").unwrap();
    append_to_document(&mut doc, at(9, 30), built);
    let reloaded = parse_day_document(&march_4(), &serialize_day_document(&doc)).unwrap();
    assert_eq!(reloaded.entries, doc.entries);
    assert_eq!(reloaded.entries[1].summary, "Cut release 🚀");
    assert_eq!(reloaded.entries[1].details, vec!["  notes here"]);
}

#[test]
fn day_file_approved_by_doctor_reads() {
    let raw = "# 2026-03-04\nintro\n## Work Log\n\n- 09:15 api:note a\n  more\n\n- 10:00 :build b\n## Notes\nx\n";
    let types = vec!["note".to_string(), "build".to_string()];
    assert!(lint_day_text(&march_4(), raw, &types).is_ok());
    let doc = parse_day_document(&march_4(), raw).unwrap();
    assert_eq!(doc.entries.len(), 2);
    assert_eq!(doc.entries[0].details, vec!["more"]);
    assert_eq!(doc.notes, "x");
}

#[test]
fn day_file_layout_matches_the_documented_example() {
    let mut doc = DayDocument::empty(march_4());
    append_to_document(
        &mut doc,
        at(9, 15),
        new_entry(Some("api"), "note", "Investigated flaky integration test", &["Reproduced it locally"]),
    );
    append_to_document(&mut doc, at(11, 30), new_entry(None, "note", "Reviewed rollout plan", &[]));
    doc.notes = "Free-form markdown notes live here.".to_string();
    let text = serialize_day_document(&doc);
    assert_eq!(
        text,
        "# 2026-03-04\n\n## Work Log\n\n- 09:15 api:note Investigated flaky integration test\n  Reproduced it locally\n- 11:30 :note Reviewed rollout plan\n\n## Notes\n\nFree-form markdown notes live here.\n"
    );
    let reloaded = parse_day_document(&march_4(), &text).unwrap();
    assert_eq!(reloaded.notes, "\nFree-form markdown notes live here.");
    assert_eq!(serialize_day_document(&reloaded), text);
}

#[test]
fn editor_line_holds_last_entry_whatever_its_tokens() {
    let mut doc = DayDocument::empty(march_4());
    append_to_document(&mut doc, at(8, 0), new_entry(Some("a b"), "odd type", "first\rpart", &["x\r"]));
    append_to_document(&mut doc, at(9, 0), new_entry(None, "", "last\rone", &["after"]));
    let line = last_entry_line_number(&doc);
    assert_eq!(line, 7);
    let text = serialize_day_document(&doc);
    let lines: Vec<&str> = text.lines().collect();
    assert_eq!(lines[line - 1], "- 09:00 : last\rone");
}
