use wrk::calendar::{Date, Time};
use wrk::cli::{EmojiSection, SortMode};
use wrk::editor::{command_from_words, editor_command, file_name};
use wrk::emoji::{expand_emoji_shortcodes, print_emoji_section};
use wrk::format::{format_entries, format_search_results};
use wrk::logbook::Entry;
use wrk::order::sort_entries;
use wrk::search::{collect_project_entries, search_entries, select_entries};

fn entry(day: u32, hour: u32, project: Option<&str>, kind: &str, summary: &str, details: &[&str]) -> Entry {
    Entry {
        date: Date { year: 2026, month: 3, day },
        timestamp: Time { hour, minute: 0 },
        project: project.map(|p| p.to_string()),
        kind: kind.to_string(),
        summary: summary.to_string(),
        details: details.iter().map(|d| d.to_string()).collect(),
    }
}

fn sample() -> Vec<Entry> {
    vec![entry(4, 9, Some("api"), "note", "a", &["d1"]), entry(5, 10, None, "build", "b", &[])]
}

#[test]
fn empty_listing_says_so() {
    assert_eq!(format_entries(&vec![], None, false), "No entries found.");
    assert_eq!(format_entries(&vec![], Some(SortMode::Project), true), "No entries found.");
    assert_eq!(format_search_results(&vec![], true), "No entries found.");
}

#[test]
fn listing_by_day_shows_day_blocks() {
    assert_eq!(
        format_entries(&sample(), None, false),
        "# 2026-03-04\n\n## Work Log\n\n- 09:00 api:note a\n\n# 2026-03-05\n\n## Work Log\n\n- 10:00 :build b"
    );
    assert_eq!(
        format_entries(&sample(), None, true),
        "# 2026-03-04\n\n## Work Log\n\n- 09:00 api:note a\n  d1\n\n# 2026-03-05\n\n## Work Log\n\n- 10:00 :build b"
    );
}

#[test]
fn listing_by_project_groups_by_label() {
    assert_eq!(
        format_entries(&sample(), Some(SortMode::Project), false),
        "## (no-project)\n\n- 2026-03-05 10:00 :build b\n\n## api\n\n- 2026-03-04 09:00 api:note a"
    );
}

#[test]
fn search_results_are_dated_lines() {
    assert_eq!(
        format_search_results(&sample(), false),
        "- 2026-03-04 09:00 api:note a\n- 2026-03-05 10:00 :build b"
    );
    assert_eq!(
        format_search_results(&sample(), true),
        "- 2026-03-04 09:00 api:note a\n  d1\n- 2026-03-05 10:00 :build b"
    );
}

#[test]
fn search_matches_summaries_and_details() {
    let all = sample();
    assert_eq!(search_entries(&all, "a|b").unwrap(), sample());
    assert_eq!(search_entries(&all, "^d1$").unwrap(), vec![entry(4, 9, Some("api"), "note", "a", &["d1"])]);
    assert_eq!(search_entries(&all, "zzz").unwrap(), Vec::<Entry>::new());
    let err = search_entries(&all, "(").unwrap_err();
    assert_eq!(err.to_string(), "invalid regex `(`");
    match err {
        wrk::error::WrkError::InvalidPattern { pattern, reason } => {
            assert_eq!(pattern, "(");
            assert!(!reason.is_empty());
        }
        other => panic!("unexpected error {:?}", other),
    }
}

#[test]
fn project_filter_keeps_one_project() {
    let mut all = sample();
    all.push(entry(3, 8, Some("api"), "note", "earlier", &[]));
    let kept = collect_project_entries(&all, "api");
    assert_eq!(
        kept,
        vec![entry(3, 8, Some("api"), "note", "earlier", &[]), entry(4, 9, Some("api"), "note", "a", &["d1"])]
    );
    assert_eq!(collect_project_entries(&all, "web"), Vec::<Entry>::new());
}

fn a() -> Entry {
    entry(4, 9, Some("api"), "note", "z", &[])
}

fn b() -> Entry {
    entry(4, 9, None, "note", "z", &[])
}

fn c() -> Entry {
    entry(4, 9, Some("api"), "build", "z", &[])
}

fn d() -> Entry {
    entry(3, 23, Some("web"), "note", "z", &[])
}

#[test]
fn entries_sort_by_date_time_project_type_summary() {
    assert_eq!(sort_entries(&vec![a(), b(), c(), d()], false), vec![d(), b(), c(), a()]);
    assert_eq!(sort_entries(&vec![a(), b(), c(), d()], true), vec![b(), c(), a(), d()]);
}

#[test]
fn sorting_keeps_equal_entries_in_order() {
    let first = entry(4, 9, Some("api"), "note", "z", &["first"]);
    let second = entry(4, 9, Some("api"), "note", "z", &["second"]);
    let sorted = sort_entries(&vec![first, second], false);
    assert_eq!(sorted[0].details, vec!["first"]);
    assert_eq!(sorted[1].details, vec!["second"]);
}

#[test]
fn editor_command_opens_at_line() {
    let cmd = editor_command(Some("nvim"), "/tmp/x.md", 7).unwrap();
    assert_eq!(cmd.program, "nvim");
    assert_eq!(cmd.args, vec!["+7", "/tmp/x.md"]);
    let cmd = editor_command(Some("code --wait"), "/tmp/x.md", 7).unwrap();
    assert_eq!(cmd.program, "code");
    assert_eq!(cmd.args, vec!["--wait", "--goto", "/tmp/x.md:7"]);
    let cmd = editor_command(Some("/usr/bin/vim"), "/tmp/x.md", 12).unwrap();
    assert_eq!(cmd.args, vec!["+12", "/tmp/x.md"]);
    let cmd = editor_command(Some("emacs -nw"), "/tmp/x.md", 3).unwrap();
    assert_eq!(cmd.args, vec!["-nw", "/tmp/x.md"]);
    assert_eq!(
        editor_command(None, "/tmp/x.md", 1).unwrap_err().to_string(),
        "set `editor` in ~/.wrkrc or define $EDITOR/$VISUAL"
    );
    assert_eq!(editor_command(Some(""), "/tmp/x.md", 1).unwrap_err().to_string(), "editor command is empty");
    assert_eq!(
        editor_command(Some("'open"), "/tmp/x.md", 1).unwrap_err().to_string(),
        "failed to parse editor command"
    );
}

#[test]
fn file_names_of_paths() {
    assert_eq!(file_name("/a/b/c.md"), Some("c.md".to_string()));
    assert_eq!(file_name("a/b/"), Some("b".to_string()));
    assert_eq!(file_name("/"), None);
    assert_eq!(file_name("latest.md"), Some("latest.md".to_string()));
}

#[test]
fn shortcodes_expand_to_emojis() {
    assert_eq!(expand_emoji_shortcodes("Lunch :taco: and :rocket:"), "Lunch 🌮 and 🚀");
    assert_eq!(expand_emoji_shortcodes("time 10:30:00"), "time 10:30:00");
    assert_eq!(expand_emoji_shortcodes(":nope_not_real: ::"), ":nope_not_real: ::");
    assert_eq!(expand_emoji_shortcodes(":taco::taco:"), "🌮🌮");
    assert_eq!(expand_emoji_shortcodes(":nope:taco:"), ":nope:taco:");
    assert_eq!(expand_emoji_shortcodes("a:b c:taco: x"), "a:b c🌮 x");
}

#[test]
fn emoji_section_is_a_markdown_table() {
    let table = print_emoji_section(EmojiSection::FoodAndDrink);
    assert!(table.starts_with("# Food and Drink\n\n| Emoji | Shortcode | Name |\n| --- | --- | --- |\n"));
    assert!(table.contains("| 🌮 | `:taco:` | taco |\n"));
    let flags = print_emoji_section(EmojiSection::Flags);
    assert!(flags.starts_with("# Flags\n\n"));
}

#[test]
fn editor_words_give_program_and_arguments() {
    let words = vec!["/opt/bin/hx".to_string(), "-c".to_string(), "cfg.toml".to_string()];
    let cmd = command_from_words(words, "/r/x.md", 40).unwrap();
    assert_eq!(cmd.program, "/opt/bin/hx");
    assert_eq!(cmd.args, vec!["-c", "cfg.toml", "+40", "/r/x.md"]);
    let cmd = command_from_words(vec!["subl".to_string()], "/r/x.md", 2).unwrap();
    assert_eq!(cmd.args, vec!["--goto", "/r/x.md:2"]);
    assert_eq!(command_from_words(vec![], "/r/x.md", 2).unwrap_err().to_string(), "editor command is empty");
}

#[test]
fn marked_entries_are_selected_and_sorted() {
    let entries = vec![a(), d(), b()];
    assert_eq!(select_entries(&entries, &vec![true, false, true]), vec![b(), a()]);
    assert_eq!(select_entries(&entries, &vec![false, false, false]), Vec::<Entry>::new());
}

#[test]
fn listings_without_all_ignore_continuation_lines() {
    let stripped = vec![entry(4, 9, Some("api"), "note", "a", &[]), entry(5, 10, None, "build", "b", &[])];
    for sort in [None, Some(SortMode::Project)] {
        assert_eq!(format_entries(&sample(), sort, false), format_entries(&stripped, sort, false));
        assert_eq!(format_entries(&stripped, sort, false), format_entries(&stripped, sort, true));
    }
}
