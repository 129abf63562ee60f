use vstd::prelude::*;
use crate::calendar::Date;
use crate::config::{Config, opt_str_view, opt_string_view};
use crate::error::{ErrorView, WrkError};
use crate::logbook::{NewEntry, NewEntryView, build_new_entry, new_entry_of};
use crate::text::{chars_of, join, join_strings, starts_with, trim, trim_end_chars, trim_end_chars_string, trim_string, views};

verus! {

/// The arguments of plain logging: `wrk [-p PROJECT] [-t TYPE] MESSAGE...`.
#[derive(Debug, PartialEq, Eq)]
pub struct LogCli {
    pub config: Option<String>,
    pub log_dir: Option<String>,
    pub project: Option<String>,
    pub kind: Option<String>,
    pub message: Vec<String>,
}

/// The arguments that the top-level help describes: logging and the
/// subcommands together.
#[derive(Debug, PartialEq, Eq)]
pub struct RootHelpCli {
    pub config: Option<String>,
    pub log_dir: Option<String>,
    pub project: Option<String>,
    pub kind: Option<String>,
    pub command: Option<Command>,
    pub message: Vec<String>,
}

/// The arguments of a subcommand.
#[derive(Debug, PartialEq, Eq)]
pub struct CommandCli {
    pub config: Option<String>,
    pub log_dir: Option<String>,
    pub command: Command,
}

/// The subcommands.
#[derive(Debug, PartialEq, Eq)]
pub enum Command {
    Day(ViewArgs),
    Week(ViewArgs),
    Month(ViewArgs),
    Year(ViewArgs),
    Search(SearchArgs),
    Project(ProjectArgs),
    Edit(EditArgs),
    Amend(AmendArgs),
    Doctor,
    Emoji(EmojiArgs),
}

#[derive(Debug, PartialEq, Eq)]
pub struct ViewArgs {
    pub date: Option<Date>,
    pub sort: Option<SortMode>,
    pub all: bool,
    pub shortcodes: bool,
}

#[derive(Debug, PartialEq, Eq)]
pub struct SearchArgs {
    pub pattern: String,
    pub all: bool,
    pub shortcodes: bool,
}

#[derive(Debug, PartialEq, Eq)]
pub struct ProjectArgs {
    pub project: String,
    pub all: bool,
    pub shortcodes: bool,
}

#[derive(Debug, PartialEq, Eq)]
pub struct EditArgs {
    pub date: Option<Date>,
}

#[derive(Debug, PartialEq, Eq)]
pub struct AmendArgs {
    pub project: Option<String>,
    pub kind: Option<String>,
    pub message: Vec<String>,
}

#[derive(Debug, PartialEq, Eq)]
pub struct EmojiArgs {
    pub section: EmojiSection,
}

/// How read commands order what they show, other than by day.
#[derive(Clone, Copy, Debug, PartialEq, Eq, Structural)]
pub enum SortMode {
    Project,
}

/// The emoji groups that `wrk emoji` lists.
#[derive(Clone, Copy, Debug, PartialEq, Eq, Structural)]
pub enum EmojiSection {
    SmileysAndEmotion,
    PeopleAndBody,
    AnimalsAndNature,
    FoodAndDrink,
    TravelAndPlaces,
    Activities,
    Objects,
    Symbols,
    Flags,
}

/// Whether two texts are equal.
pub fn text_equals(a: &str, b: &str) -> (r: bool)
    ensures
        r == (a@ == b@),
{
    let x = chars_of(a);
    let y = chars_of(b);
    if x.len() != y.len() {
        return false;
    }
    let mut i: usize = 0;
    while i < x.len()
        invariant
            x@ == a@,
            y@ == b@,
            x@.len() == y@.len(),
            i <= x@.len(),
            forall|j: int| 0 <= j < i ==> x@[j] == y@[j],
        decreases x.len() - i,
    {
        if x[i] != y[i] {
            return false;
        }
        i = i + 1;
    }
    assert(x@ =~= y@);
    true
}

/// Whether `s` starts with `p`.
pub fn text_starts_with(s: &str, p: &str) -> (r: bool)
    ensures
        r == starts_with(s@, p@),
{
    let x = chars_of(s);
    let y = chars_of(p);
    if y.len() > x.len() {
        return false;
    }
    let mut i: usize = 0;
    while i < y.len()
        invariant
            x@ == s@,
            y@ == p@,
            y@.len() <= x@.len(),
            i <= y@.len(),
            forall|j: int| 0 <= j < i ==> x@[j] == y@[j],
        decreases y.len() - i,
    {
        if x[i] != y[i] {
            assert(x@.take(y@.len() as int)[i as int] != y@[i as int]);
            return false;
        }
        i = i + 1;
    }
    assert(x@.take(y@.len() as int) =~= y@);
    true
}

/// The names of the subcommands.
pub open spec fn known_command(v: Seq<char>) -> bool {
    ||| v == "day"@
    ||| v == "week"@
    ||| v == "month"@
    ||| v == "year"@
    ||| v == "search"@
    ||| v == "project"@
    ||| v == "edit"@
    ||| v == "amend"@
    ||| v == "doctor"@
    ||| v == "emoji"@
}

/// Whether `value` names a subcommand.
pub fn is_known_command(value: &str) -> (r: bool)
    ensures
        r == known_command(value@),
{
    text_equals(value, "day") || text_equals(value, "week") || text_equals(value, "month")
        || text_equals(value, "year") || text_equals(value, "search") || text_equals(
        value,
        "project",
    ) || text_equals(value, "edit") || text_equals(value, "amend") || text_equals(value, "doctor")
        || text_equals(value, "emoji")
}

/// Whether the arguments (after the program name) ask for a subcommand:
/// scanning them, `--` means logging, the values of `--config` and
/// `--log-dir` are skipped, a project or type flag means logging, other
/// flags are skipped, and the first plain word decides: a subcommand name
/// asks for the subcommand unless a logging flag came before it.
pub open spec fn asks_for_command(args: Seq<Seq<char>>, consume: bool, logging: bool) -> bool
    decreases args.len(),
{
    if args.len() == 0 {
        false
    } else if consume {
        asks_for_command(args.skip(1), false, logging)
    } else {
        let v = args[0];
        if v == "--"@ {
            false
        } else if v == "--config"@ || v == "--log-dir"@ {
            asks_for_command(args.skip(1), true, logging)
        } else if v == "-p"@ || v == "--project"@ || v == "-t"@ || v == "--type"@ {
            asks_for_command(args.skip(1), true, true)
        } else if starts_with(v, "--config="@) || starts_with(v, "--log-dir="@) {
            asks_for_command(args.skip(1), false, logging)
        } else if starts_with(v, "--project="@) || starts_with(v, "--type="@) {
            asks_for_command(args.skip(1), false, true)
        } else if starts_with(v, "-"@) {
            asks_for_command(args.skip(1), false, logging)
        } else {
            !logging && known_command(v)
        }
    }
}

/// Whether the arguments (after the program name) ask for a subcommand
/// rather than for logging a message.
pub fn should_parse_command(args: &Vec<String>) -> (r: bool)
    ensures
        r == asks_for_command(views(args@), false, false),
{
    let mut consume_next = false;
    let mut logging_flag_seen = false;
    let mut i: usize = 0;
    let ghost all = views(args@);
    assert(all.skip(0) =~= all);
    while i < args.len()
        invariant
            i <= args@.len(),
            all == views(args@),
            asks_for_command(all, false, false) == asks_for_command(
                all.skip(i as int),
                consume_next,
                logging_flag_seen,
            ),
        decreases args.len() - i,
    {
        let ghost rest = all.skip(i as int);
        assert(rest[0] == args@[i as int]@);
        assert(rest.skip(1) =~= all.skip(i + 1));
        if consume_next {
            consume_next = false;
            i = i + 1;
            continue;
        }
        let value = args[i].as_str();
        if text_equals(value, "--") {
            return false;
        } else if text_equals(value, "--config") || text_equals(value, "--log-dir") {
            consume_next = true;
        } else if text_equals(value, "-p") || text_equals(value, "--project") || text_equals(
            value,
            "-t",
        ) || text_equals(value, "--type") {
            logging_flag_seen = true;
            consume_next = true;
        } else if text_starts_with(value, "--config=") || text_starts_with(value, "--log-dir=") {
        } else if text_starts_with(value, "--project=") || text_starts_with(value, "--type=") {
            logging_flag_seen = true;
        } else if text_starts_with(value, "-") {
        } else {
            return !logging_flag_seen && is_known_command(value);
        }
        i = i + 1;
    }
    assert(all.skip(i as int).len() == 0);
    false
}

/// Whether the arguments (after the program name) are `-h` or `--help`
/// alone.
pub fn is_root_help(args: &Vec<String>) -> (r: bool)
    ensures
        r == (args@.len() == 1 && (args@[0]@ == "-h"@ || args@[0]@ == "--help"@)),
{
    args.len() == 1 && (text_equals(args[0].as_str(), "-h") || text_equals(
        args[0].as_str(),
        "--help",
    ))
}

/// Whether the arguments (after the program name) are `-V` or `--version`
/// alone.
pub fn is_root_version(args: &Vec<String>) -> (r: bool)
    ensures
        r == (args@.len() == 1 && (args@[0]@ == "-V"@ || args@[0]@ == "--version"@)),
{
    args.len() == 1 && (text_equals(args[0].as_str(), "-V") || text_equals(
        args[0].as_str(),
        "--version",
    ))
}

/// The message given as words on the command line: the words joined by
/// spaces, or none where there is no word.
pub fn message_from_parts(parts: &Vec<String>) -> (r: Option<String>)
    ensures
        opt_string_view(r) == (if parts@.len() == 0 {
            None
        } else {
            Some(join(views(parts@), " "@))
        }),
{
    if parts.len() == 0 {
        None
    } else {
        Some(join_strings(parts, " "))
    }
}

/// The message read from a pipe: without its final line feeds and carriage
/// returns, or none where nothing else is left.
pub fn message_from_stdin(buffer: &str) -> (r: Option<String>)
    ensures
        opt_string_view(r) == (if trim_end_chars(buffer@, seq!['\n', '\r']).len() == 0 {
            None
        } else {
            Some(trim_end_chars(buffer@, seq!['\n', '\r']))
        }),
{
    let mut set: Vec<char> = Vec::new();
    set.push('\n');
    set.push('\r');
    assert(set@ =~= seq!['\n', '\r']);
    let trimmed = trim_end_chars_string(buffer, &set);
    if trimmed.as_str().is_empty() {
        None
    } else {
        Some(trimmed)
    }
}

/// The message typed line by line: the lines joined by line feeds, or none
/// where every line is blank.
pub fn message_from_lines(lines: &Vec<String>) -> (r: Option<String>)
    ensures
        opt_string_view(r) == (if forall|i: int| 0 <= i < lines@.len() ==> trim(#[trigger] lines@[i]@).len() == 0 {
            None
        } else {
            Some(join(views(lines@), "\n"@))
        }),
{
    let mut i: usize = 0;
    while i < lines.len()
        invariant
            i <= lines@.len(),
            forall|j: int| 0 <= j < i ==> trim(#[trigger] lines@[j]@).len() == 0,
        decreases lines.len() - i,
    {
        let t = trim_string(lines[i].as_str());
        if !t.as_str().is_empty() {
            return Some(join_strings(lines, "\n"));
        }
        i = i + 1;
    }
    None
}

/// Plain logging: where a message came, the new entry to log.
pub fn handle_default_log(config: &Config, cli: &LogCli, raw: Option<String>) -> (r: Result<
    Option<NewEntry>,
    WrkError,
>)
    ensures
        match raw {
            None => r matches Ok(x) && x is None,
            Some(m) => match new_entry_of(
                opt_string_view(config.default_project),
                config.default_type@,
                views(config.types@),
                opt_string_view(cli.project),
                opt_string_view(cli.kind),
                m@,
            ) {
                Ok(v) => r matches Ok(x) && x matches Some(n) && n@ == v,
                Err(e) => r matches Err(x) && x@ == e,
            },
        },
{
    let raw = match raw {
        Some(m) => m,
        None => {
            return Ok(None);
        },
    };
    let project: Option<&str> = match &cli.project {
        Some(p) => Some(p.as_str()),
        None => None,
    };
    let kind: Option<&str> = match &cli.kind {
        Some(k) => Some(k.as_str()),
        None => None,
    };
    assert(opt_str_view(project) == opt_string_view(cli.project));
    assert(opt_str_view(kind) == opt_string_view(cli.kind));
    let entry = build_new_entry(config, project, kind, raw.as_str())?;
    Ok(Some(entry))
}

} // verus!
