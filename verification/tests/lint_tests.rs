use wrk::calendar::Date;
use wrk::layout::{check_date_dirs, lint_day_text, log_path};
use wrk::logbook::parse_day_document;
use wrk::lint::{
    LintProblem, WalkItem, check_latest_target, date_from_path, doctor_report, latest_link_target,
    markdown_name, path_parts_of, path_within, sort_problems, strip_root, walk_item,
};

fn problem(path: &str, message: &str) -> LintProblem {
    LintProblem { path: path.to_string(), message: message.to_string() }
}

fn types() -> Vec<String> {
    vec!["note".to_string(), "build".to_string()]
}

#[test]
fn paths_name_their_date() {
    assert_eq!(date_from_path("/r", "/r/2026/03/2026-03-04.md").unwrap(), Date { year: 2026, month: 3, day: 4 });
    assert_eq!(
        date_from_path("/r", "/r/2026/3/2026-03-04.md").unwrap_err().to_string(),
        "month directory `3` does not match filename date"
    );
    assert_eq!(
        date_from_path("/r", "/r/2025/03/2026-03-04.md").unwrap_err().to_string(),
        "year directory `2025` does not match filename date"
    );
    assert_eq!(
        date_from_path("/r", "/r/2026/03/notes.md").unwrap_err().to_string(),
        "invalid date filename `notes.md`"
    );
    assert_eq!(date_from_path("/r", "/r/2026/03/2026-03-04.txt").unwrap_err().to_string(), "file must end in .md");
    assert_eq!(
        date_from_path("/r", "/r/latest.md").unwrap_err().to_string(),
        "path must be YYYY/MM/YYYY-MM-DD.md under the log root"
    );
    assert_eq!(
        date_from_path("/r", "/other/2026/03/2026-03-04.md").unwrap_err().to_string(),
        "/other/2026/03/2026-03-04.md is outside /r"
    );
}

#[test]
fn paths_compare_by_components() {
    assert_eq!(path_parts_of("/r//a/b/"), vec!["/", "r", "a", "b"]);
    assert_eq!(path_parts_of("r/a"), vec!["r", "a"]);
    assert!(path_within("/r", "/r/a.md"));
    assert!(!path_within("/r", "/rx/a.md"));
    assert!(path_within("/r/", "/r"));
    assert_eq!(strip_root("/r", "/r/2026/03/x.md").unwrap(), vec!["2026", "03", "x.md"]);
}

#[test]
fn day_file_check_reports_first_problem() {
    let d = Date { year: 2026, month: 3, day: 4 };
    let good = "# 2026-03-04\n\n## Work Log\n\n- 09:15 api:note a\n  more\n\n## Notes\n\nfree text\n";
    assert!(lint_day_text(&d, good, &types()).is_ok());
    assert_eq!(
        lint_day_text(&d, "# 2026-03-05\n", &types()).unwrap_err().to_string(),
        "title must be `# 2026-03-04`"
    );
    assert_eq!(
        lint_day_text(&d, "# 2026-03-04\n## Work Log\n  orphan\n## Notes\n", &types()).unwrap_err().to_string(),
        "indented continuation line must follow a log entry"
    );
    assert_eq!(
        lint_day_text(&d, "# 2026-03-04\n## Work Log\n- 09:15 :meeting x\n## Notes\n", &types()).unwrap_err().to_string(),
        "unknown type `meeting`"
    );
    assert_eq!(
        lint_day_text(&d, "# 2026-03-04\n## Work Log\n* bullet\n## Notes\n", &types()).unwrap_err().to_string(),
        "invalid work-log line `* bullet`"
    );
    assert_eq!(
        lint_day_text(&d, "# 2026-03-04\n## Work Log\n", &types()).unwrap_err().to_string(),
        "missing `## Notes` section"
    );
}

#[test]
fn problems_sort_by_path_then_message() {
    let sorted = sort_problems(&vec![
        problem("/r/b.md", "x"),
        problem("/r/a/z.md", "m"),
        problem("/r/a.md", "b"),
        problem("/r/a.md", "a"),
    ]);
    assert_eq!(
        sorted,
        vec![problem("/r/a/z.md", "m"), problem("/r/a.md", "a"), problem("/r/a.md", "b"), problem("/r/b.md", "x")]
    );
}

#[test]
fn doctor_report_lists_problems() {
    assert_eq!(doctor_report(&vec![]), "No problems found.\n");
    assert_eq!(
        doctor_report(&vec![problem("/r/a.md", "file must end in .md"), problem("/r/b.md", "x")]),
        "/r/a.md: file must end in .md\n/r/b.md: x\n"
    );
}

#[test]
fn latest_link_stays_inside_root() {
    assert_eq!(latest_link_target("/r", "/r/2026/03/2026-03-04.md"), "2026/03/2026-03-04.md");
    assert_eq!(latest_link_target("/r", "/s/x.md"), "/s/x.md");
    assert!(check_latest_target("/r", "/r/2026/03/x.md", "/r").is_ok());
    assert_eq!(
        check_latest_target("/r", "/rx/x.md", "~/wrk").unwrap_err().to_string(),
        "latest symlink must point inside ~/wrk"
    );
}

#[test]
fn markdown_names_have_md_extension() {
    assert!(markdown_name("2026-03-04.md"));
    assert!(markdown_name("..md"));
    assert!(!markdown_name(".md"));
    assert!(!markdown_name("a.mdx"));
    assert!(!markdown_name("md"));
}

#[test]
fn directories_must_name_the_date() {
    let d = Date { year: 2026, month: 3, day: 4 };
    assert!(check_date_dirs(&"2026".to_string(), &"03".to_string(), &d).is_ok());
    assert_eq!(
        check_date_dirs(&"26".to_string(), &"03".to_string(), &d).unwrap_err().to_string(),
        "year directory `26` does not match filename date"
    );
    assert_eq!(
        check_date_dirs(&"2026".to_string(), &"3".to_string(), &d).unwrap_err().to_string(),
        "month directory `3` does not match filename date"
    );
}

#[test]
fn path_of_a_day_names_that_day() {
    for (root, d) in [
        ("/home/me/wrk", Date { year: 2026, month: 3, day: 4 }),
        ("/", Date { year: 987, month: 11, day: 20 }),
        ("logs/", Date { year: 2024, month: 2, day: 29 }),
        ("", Date { year: 1, month: 1, day: 1 }),
    ] {
        assert_eq!(date_from_path(root, &log_path(root, &d)).unwrap(), d);
    }
    assert_eq!(
        date_from_path("/r", "/r/2026/04/2026-03-04.md").unwrap_err().to_string(),
        "month directory `04` does not match filename date"
    );
}

#[test]
fn doctor_agrees_with_reading() {
    let d = Date { year: 2026, month: 3, day: 4 };
    let allowed = types();
    let texts = [
        "# 2026-03-04\n## Work Log\n- 09:15 :note a\n  x\n## Notes\n",
        "# 2026-03-04\n## Work Log\n- 09:15 :meeting a\n## Notes\n",
        "# 2026-03-04\n## Work Log\n  x\n## Notes\n",
        "# 2026-03-04\n## Notes\n## Work Log\n",
        "# 2026-03-05\n## Work Log\n## Notes\n",
        "# 2026-03-04\r\n## Work Log\r\n- 09:15 :note a\r\n  x\r\n## Notes\r\n",
        "# 2026-03-04\r\n## Work Log\r\n- 09:15 :meeting a\r\n## Notes\r\n",
        "# 2026-03-04\n## Work Log\n- 09:15 :note a\n## Notes\nx\r\r\ny\n",
        "# 2026-03-04\r\n## Work Log\r\n- 09:15 :meeting a\r\n## Notes\r\n\r\r\n",
        "",
    ];
    for raw in texts {
        let checked = lint_day_text(&d, raw, &allowed).is_ok();
        let read = match parse_day_document(&d, raw) {
            Ok(doc) => doc.entries.iter().all(|e| allowed.contains(&e.kind)),
            Err(_) => false,
        };
        assert_eq!(checked, read, "{raw:?}");
    }
}

#[test]
fn walk_items_are_sorted_out() {
    assert_eq!(walk_item(true, false, "/r/latest.md"), WalkItem::LatestLink);
    assert_eq!(walk_item(false, true, "/r/latest.md"), WalkItem::DayFile);
    assert_eq!(walk_item(false, true, "/r/2026/03/2026-03-04.md"), WalkItem::DayFile);
    assert_eq!(walk_item(true, false, "/r/other.md"), WalkItem::Other);
    assert_eq!(walk_item(false, true, "/r/notes.txt"), WalkItem::Other);
    assert_eq!(walk_item(false, false, "/r/2026"), WalkItem::Other);
}
