use vstd::prelude::*;
use crate::calendar::{decimal, decimal_chars};
use crate::cli::text_equals;
use crate::error::{ErrorView, WrkError};
use crate::text::{chars_of, string_from_chars, string_from_range, views};

verus! {

/// How `shlex::split` splits a command into words, where it can.
pub uninterp spec fn shell_words(command: Seq<char>) -> Option<Seq<Seq<char>>>;

/// Splits a command into words as a POSIX shell would (`shlex::split`).
#[verifier::external_body]
fn shlex_split(command: &str) -> (r: Option<Vec<String>>)
    ensures
        match r {
            Some(v) => shell_words(command@) == Some(views(v@)),
            None => shell_words(command@) is None,
        },
{
    shlex::split(command)
}

/// `p` without its trailing slashes.
pub open spec fn strip_trailing_slashes(p: Seq<char>) -> Seq<char>
    decreases p.len(),
{
    if p.len() > 0 && p.last() == '/' {
        strip_trailing_slashes(p.drop_last())
    } else {
        p
    }
}

/// The index of the last slash of `q[..k]`, or -1.
pub open spec fn last_slash_before(q: Seq<char>, k: int) -> int
    decreases k,
{
    if k <= 0 {
        -1
    } else if q[k - 1] == '/' {
        k - 1
    } else {
        last_slash_before(q, k - 1)
    }
}

pub proof fn lemma_last_slash(q: Seq<char>, k: int)
    requires
        0 <= k <= q.len(),
    ensures
        -1 <= last_slash_before(q, k) < k,
        last_slash_before(q, k) >= 0 ==> q[last_slash_before(q, k)] == '/',
        forall|j: int| last_slash_before(q, k) < j < k ==> q[j] != '/',
    decreases k,
{
    if k > 0 && q[k - 1] != '/' {
        lemma_last_slash(q, k - 1);
    }
}

pub proof fn lemma_strip_trailing_slashes(p: Seq<char>)
    ensures
        strip_trailing_slashes(p).len() <= p.len(),
        strip_trailing_slashes(p) == p.take(strip_trailing_slashes(p).len() as int),
        strip_trailing_slashes(p).len() > 0 ==> strip_trailing_slashes(p).last() != '/',
    decreases p.len(),
{
    if p.len() > 0 && p.last() == '/' {
        lemma_strip_trailing_slashes(p.drop_last());
        assert(p.drop_last().take(strip_trailing_slashes(p).len() as int) =~= p.take(
            strip_trailing_slashes(p).len() as int,
        ));
    } else {
        assert(p.take(p.len() as int) =~= p);
    }
}

/// The last component of a path if it is a name (`Path::file_name` on
/// Unix): trailing slashes and `.` components after the first are skipped,
/// and `..`, a leading `.` or the root give none.
pub open spec fn file_name_of(p: Seq<char>) -> Option<Seq<char>>
    decreases p.len(),
{
    let q = strip_trailing_slashes(p);
    if q.len() == 0 {
        None
    } else {
        let k = last_slash_before(q, q.len() as int);
        let c = q.subrange(k + 1, q.len() as int);
        if c == seq!['.'] {
            if k < 0 {
                None
            } else {
                proof {
                    lemma_strip_trailing_slashes(p);
                    lemma_last_slash(q, q.len() as int);
                }
                file_name_of(q.take(k))
            }
        } else if c == seq!['.', '.'] {
            None
        } else {
            Some(c)
        }
    }
}

/// The name of the file a path ends in.
pub fn file_name(path: &str) -> (r: Option<String>)
    ensures
        match file_name_of(path@) {
            Some(n) => r matches Some(x) && x@ == n,
            None => r is None,
        },
{
    let cs = chars_of(path);
    assert(cs@.take(cs@.len() as int) =~= path@);
    file_name_in(&cs, cs.len())
}

fn file_name_in(cs: &Vec<char>, len: usize) -> (r: Option<String>)
    requires
        len <= cs@.len(),
    ensures
        match file_name_of(cs@.take(len as int)) {
            Some(n) => r matches Some(x) && x@ == n,
            None => r is None,
        },
    decreases len,
{
    let ghost p = cs@.take(len as int);
    let mut end = len;
    while end > 0 && cs[end - 1] == '/'
        invariant
            end <= len <= cs@.len(),
            strip_trailing_slashes(p) == strip_trailing_slashes(cs@.take(end as int)),
        decreases end,
    {
        assert(cs@.take(end as int).drop_last() =~= cs@.take(end - 1));
        end = end - 1;
    }
    let ghost q = cs@.take(end as int);
    assert(strip_trailing_slashes(q) == q);
    if end == 0 {
        return None;
    }
    let mut k = end;
    while k > 0 && cs[k - 1] != '/'
        invariant
            k <= end <= cs@.len(),
            q == cs@.take(end as int),
            last_slash_before(q, end as int) == last_slash_before(q, k as int),
        decreases k,
    {
        k = k - 1;
    }
    let ghost sk = last_slash_before(q, end as int);
    assert(k == 0 ==> sk == -1);
    assert(k > 0 ==> sk == k - 1);
    let c = string_from_range(cs, k, end);
    assert(c@ =~= q.subrange(sk + 1, q.len() as int));
    if end - k == 1 && cs[k] == '.' {
        assert(c@ =~= seq!['.']);
        if k == 0 {
            return None;
        }
        assert(cs@.take(k - 1) =~= q.take(sk));
        return file_name_in(cs, k - 1);
    }
    if end - k == 2 && cs[k] == '.' && cs[k + 1] == '.' {
        assert(c@ =~= seq!['.', '.']);
        return None;
    }
    proof {
        if c@ == seq!['.'] {
            assert(c@[0] == cs@[k as int]);
        }
        if c@ == seq!['.', '.'] {
            assert(c@[0] == cs@[k as int]);
            assert(c@[1] == cs@[k + 1]);
        }
    }
    Some(c)
}

/// Editors that take the line as `+LINE` before the path.
pub open spec fn takes_plus_line(name: Seq<char>) -> bool {
    name == "vim"@ || name == "nvim"@ || name == "vi"@ || name == "nano"@ || name == "hx"@ || name
        == "helix"@
}

/// Editors that take `--goto PATH:LINE`.
pub open spec fn takes_goto(name: Seq<char>) -> bool {
    name == "code"@ || name == "codium"@ || name == "subl"@ || name == "mate"@
}

/// The program and the arguments that open `path` at `line`, from the
/// words of the editor command: the first word is the program, the others
/// come first, then the path in the form that the program takes.
pub open spec fn invocation_from_words(ws: Seq<Seq<char>>, path: Seq<char>, line: nat) -> Result<
    (Seq<char>, Seq<Seq<char>>),
    ErrorView,
> {
    if ws.len() == 0 {
        Err(ErrorView::EditorEmpty)
    } else {
        let program = ws[0];
        let exe = match file_name_of(program) {
            Some(n) => n,
            None => program,
        };
        let tail: Seq<Seq<char>> = if takes_plus_line(exe) {
            seq![seq!['+'] + decimal(line), path]
        } else if takes_goto(exe) {
            seq!["--goto"@, path + seq![':'] + decimal(line)]
        } else {
            seq![path]
        };
        Ok((program, ws.skip(1) + tail))
    }
}

/// The program and the arguments that open `path` at `line` in the
/// configured editor, whose command is split into words as a shell would.
pub open spec fn editor_invocation(editor: Option<Seq<char>>, path: Seq<char>, line: nat) -> Result<
    (Seq<char>, Seq<Seq<char>>),
    ErrorView,
> {
    match editor {
        None => Err(ErrorView::EditorUnset),
        Some(e) => match shell_words(e) {
            None => Err(ErrorView::EditorUnparsable),
            Some(ws) => invocation_from_words(ws, path, line),
        },
    }
}

/// A program to run and its arguments.
#[derive(Debug, PartialEq, Eq)]
pub struct EditorCommand {
    pub program: String,
    pub args: Vec<String>,
}

/// Builds the command that opens `path` at `line` from the words of the
/// editor command.
pub fn command_from_words(words: Vec<String>, path: &str, line: usize) -> (r: Result<
    EditorCommand,
    WrkError,
>)
    ensures
        match invocation_from_words(views(words@), path@, line as nat) {
            Ok((p, a)) => r matches Ok(c) && c.program@ == p && views(c.args@) == a,
            Err(e) => r matches Err(x) && x@ == e,
        },
{
    let mut words = words;
    if words.len() == 0 {
        return Err(WrkError::EditorEmpty);
    }
    let ghost ws = views(words@);
    let program = words.remove(0);
    assert(views(words@) =~= ws.skip(1));
    let exe = match file_name(program.as_str()) {
        Some(n) => n,
        None => program.clone(),
    };
    let digits = decimal_chars(line as u64);
    let number = string_from_chars(digits.as_slice());
    let e = exe.as_str();
    let ghost before = views(words@);
    if text_equals(e, "vim") || text_equals(e, "nvim") || text_equals(e, "vi") || text_equals(
        e,
        "nano",
    ) || text_equals(e, "hx") || text_equals(e, "helix") {
        let mut plus = String::from_str("+");
        plus.append(number.as_str());
        proof {
            reveal_strlit("+");
        }
        assert(plus@ =~= seq!['+'] + decimal(line as nat));
        words.push(plus);
        words.push(String::from_str(path));
        assert(views(words@) =~= before + seq![seq!['+'] + decimal(line as nat), path@]);
    } else if text_equals(e, "code") || text_equals(e, "codium") || text_equals(e, "subl")
        || text_equals(e, "mate") {
        let mut target = String::from_str(path);
        target.append(":");
        target.append(number.as_str());
        proof {
            reveal_strlit(":");
        }
        assert(target@ =~= path@ + seq![':'] + decimal(line as nat));
        words.push(String::from_str("--goto"));
        words.push(target);
        assert(views(words@) =~= before + seq!["--goto"@, path@ + seq![':'] + decimal(line as nat)]);
    } else {
        words.push(String::from_str(path));
        assert(views(words@) =~= before + seq![path@]);
    }
    Ok(EditorCommand { program, args: words })
}

/// Builds the command that opens `path` at `line` in the configured editor.
pub fn editor_command(editor: Option<&str>, path: &str, line: usize) -> (r: Result<
    EditorCommand,
    WrkError,
>)
    ensures
        match editor_invocation(
            match editor {
                Some(e) => Some(e@),
                None => None,
            },
            path@,
            line as nat,
        ) {
            Ok((p, a)) => r matches Ok(c) && c.program@ == p && views(c.args@) == a,
            Err(e) => r matches Err(x) && x@ == e,
        },
{
    let command = match editor {
        Some(e) => e,
        None => {
            return Err(WrkError::EditorUnset);
        },
    };
    let words = match shlex_split(command) {
        Some(w) => w,
        None => {
            return Err(WrkError::EditorUnparsable);
        },
    };
    command_from_words(words, path, line)
}

} // verus!
