use vstd::prelude::*;
use crate::entry::{is_token, is_token_char};
use crate::error::{ErrorView, WrkError};
use crate::text::{char_is_white_space, chars_of, starts_with, string_from_range, views};

verus! {

/// The settings that the commands work with.
#[derive(Debug, PartialEq, Eq)]
pub struct Config {
    pub log_dir: String,
    pub default_project: Option<String>,
    pub default_type: String,
    pub types: Vec<String>,
    pub editor: Option<String>,
}

/// What a configuration file may set; each setting may be missing.
#[derive(Debug, PartialEq, Eq)]
pub struct FileConfig {
    pub log_dir: Option<String>,
    pub default_project: Option<String>,
    pub default_type: Option<String>,
    pub types: Option<Vec<String>>,
    pub editor: Option<String>,
}

impl Config {
    /// The settings hold valid tokens, and the default type is allowed.
    pub open spec fn wf(&self) -> bool {
        &&& (self.default_project matches Some(p) ==> is_token(p@))
        &&& is_token(self.default_type@)
        &&& forall|i: int| 0 <= i < self.types@.len() ==> is_token(#[trigger] self.types@[i]@)
        &&& views(self.types@).contains(self.default_type@)
    }
}

pub open spec fn type_label() -> Seq<char> {
    "type"@
}

pub open spec fn project_label() -> Seq<char> {
    "project"@
}

/// What checking `value` as a token labelled `label` gives.
pub open spec fn token_check(label: Seq<char>, value: Seq<char>) -> Result<(), ErrorView> {
    if value.len() == 0 {
        Err(ErrorView::EmptyValue { label })
    } else if !is_token(value) {
        Err(ErrorView::InvalidToken { label, value })
    } else {
        Ok(())
    }
}

pub open spec fn same_check(r: Result<(), WrkError>, s: Result<(), ErrorView>) -> bool {
    match s {
        Ok(()) => r is Ok,
        Err(e) => r matches Err(x) && x@ == e,
    }
}

/// Checks that a project or a type is neither empty nor holds white space or
/// `:`.
pub fn validate_token(label: &str, value: &str) -> (r: Result<(), WrkError>)
    ensures
        same_check(r, token_check(label@, value@)),
{
    let cs = chars_of(value);
    if cs.len() == 0 {
        return Err(WrkError::EmptyValue { label: String::from_str(label) });
    }
    let mut i: usize = 0;
    while i < cs.len()
        invariant
            i <= cs@.len(),
            cs@ == value@,
            forall|j: int| 0 <= j < i ==> is_token_char(#[trigger] cs@[j]),
        decreases cs.len() - i,
    {
        if cs[i] == ':' || char_is_white_space(cs[i]) {
            assert(!is_token_char(cs@[i as int]));
            return Err(
                WrkError::InvalidToken {
                    label: String::from_str(label),
                    value: String::from_str(value),
                },
            );
        }
        i = i + 1;
    }
    Ok(())
}

/// Checks a type.
pub fn validate_kind(kind: &str) -> (r: Result<(), WrkError>)
    ensures
        same_check(r, token_check(type_label(), kind@)),
{
    validate_token("type", kind)
}

/// Checks a project, where there is one.
pub fn validate_project(project: Option<&str>) -> (r: Result<(), WrkError>)
    ensures
        match project {
            Some(p) => same_check(r, token_check(project_label(), p@)),
            None => r is Ok,
        },
{
    match project {
        Some(p) => validate_token("project", p),
        None => Ok(()),
    }
}

/// Whether one of `items` equals `value`.
pub fn contains_string(items: &Vec<String>, value: &String) -> (r: bool)
    ensures
        r == views(items@).contains(value@),
{
    let mut i: usize = 0;
    while i < items.len()
        invariant
            i <= items@.len(),
            forall|j: int| 0 <= j < i ==> items@[j]@ != value@,
        decreases items.len() - i,
    {
        if items[i] == *value {
            assert(views(items@)[i as int] == value@);
            return true;
        }
        i = i + 1;
    }
    proof {
        if views(items@).contains(value@) {
            let j = choose|j: int| 0 <= j < views(items@).len() && views(items@)[j] == value@;
            assert(items@[j]@ == value@);
        }
    }
    false
}

pub fn copy_strings(items: &Vec<String>) -> (r: Vec<String>)
    ensures
        views(r@) == views(items@),
{
    let mut out: Vec<String> = Vec::new();
    let mut i: usize = 0;
    while i < items.len()
        invariant
            i <= items@.len(),
            views(out@) == views(items@).take(i as int),
        decreases items.len() - i,
    {
        out.push(items[i].clone());
        assert(views(items@).take(i + 1) =~= views(items@).take(i as int).push(items@[i as int]@));
        assert(views(out@) =~= views(items@).take(i + 1));
        i = i + 1;
    }
    assert(views(items@).take(items@.len() as int) =~= views(items@));
    out
}

pub open spec fn opt_str_view(o: Option<&str>) -> Option<Seq<char>> {
    match o {
        Some(s) => Some(s@),
        None => None,
    }
}

/// The project of a new entry: the one given, else the default one, checked
/// where there is one.
pub open spec fn project_resolution(
    default_project: Option<Seq<char>>,
    project: Option<Seq<char>>,
) -> Result<Option<Seq<char>>, ErrorView> {
    let value = match project {
        Some(p) => Some(p),
        None => default_project,
    };
    match value {
        None => Ok(None),
        Some(v) => match token_check(project_label(), v) {
            Ok(()) => Ok(Some(v)),
            Err(e) => Err(e),
        },
    }
}

/// The type of a new entry: the one given, else the default one, checked
/// and looked up among the allowed types.
pub open spec fn kind_resolution(
    default_type: Seq<char>,
    types: Seq<Seq<char>>,
    kind: Option<Seq<char>>,
) -> Result<Seq<char>, ErrorView> {
    let value = match kind {
        Some(k) => k,
        None => default_type,
    };
    match token_check(type_label(), value) {
        Err(e) => Err(e),
        Ok(()) => if types.contains(value) {
            Ok(value)
        } else {
            Err(ErrorView::UnknownType { value, allowed: types })
        },
    }
}

impl Config {
    /// Builds the settings from what a configuration file sets, the log
    /// directory given on the command line and the editor named by the
    /// environment.
    pub fn load(
        file: FileConfig,
        log_dir_override: Option<String>,
        env_editor: Option<String>,
    ) -> (r: Result<Config, WrkError>)
        ensures
            match file_check(file) {
                Err(e) => r matches Err(x) && x@ == e,
                Ok(()) => r matches Ok(c) && {
                    &&& c.wf()
                    &&& opt_string_view(c.default_project) == file_default_project(file)
                    &&& c.default_type@ == file_default_type(file)
                    &&& views(c.types@) == file_types(file)
                    &&& opt_string_view(c.editor) == match file.editor {
                        Some(e) => Some(e@),
                        None => opt_string_view(env_editor),
                    }
                    &&& match log_dir_override {
                        Some(d) => c.log_dir@ == d@,
                        None => match file.log_dir {
                            Some(d) => exists|h: Seq<char>| h.len() > 0 && c.log_dir@ == tilde_expanded(d@, h),
                            None => exists|h: Seq<char>| h.len() > 0 && c.log_dir@ == join_path(h, "wrk"@),
                        },
                    }
                },
            },
    {
        let ghost f = file;
        let FileConfig { log_dir, default_project, default_type, types, editor } = file;
        let log_dir = match log_dir_override {
            Some(d) => d,
            None => match log_dir {
                Some(d) => {
                    let expanded = expand_tilde(d.as_str());
                    match expanded {
                        Ok(p) => p,
                        Err(e) => {
                            return Err(e);
                        },
                    }
                },
                None => default_log_dir(),
            },
        };
        let default_project = match default_project {
            Some(p) => if p.as_str().is_empty() {
                None
            } else {
                Some(p)
            },
            None => None,
        };
        let default_type = match default_type {
            Some(t) => t,
            None => {
                let t = String::from_str("note");
                t
            },
        };
        let mut types = match types {
            Some(ts) => ts,
            None => {
                let mut v: Vec<String> = Vec::new();
                v.push(default_type.clone());
                proof {
                    assert(views(v@) =~= seq![default_type@]);
                }
                v
            },
        };
        match &default_project {
            Some(p) => validate_project(Some(p.as_str()))?,
            None => {},
        }
        validate_kind(default_type.as_str())?;
        if !contains_string(&types, &default_type) {
            let ghost before = types@;
            types.push(default_type.clone());
            assert(views(types@) =~= views(before).push(default_type@));
            assert(views(types@)[before.len() as int] == default_type@);
        }
        assert(views(types@) == file_types(f));
        assert(views(types@).contains(default_type@));
        assert(file_check(f) == check_kinds(file_types(f)));
        assert(views(types@).skip(0) =~= views(types@));
        let mut i: usize = 0;
        while i < types.len()
            invariant
                i <= types@.len(),
                views(types@) == file_types(f),
                f == file,
                views(types@).contains(default_type@),
                file_check(f) == check_kinds(file_types(f)),
                check_kinds(views(types@)) == check_kinds(views(types@).skip(i as int)),
                forall|j: int| 0 <= j < i ==> is_token(#[trigger] types@[j]@),
            decreases types.len() - i,
        {
            let ghost rest = views(types@).skip(i as int);
            assert(rest[0] == types@[i as int]@);
            assert(rest.len() > 0);
            assert(check_kinds(rest) == match token_check(type_label(), rest[0]) {
                Err(e) => Err(e),
                Ok(()) => check_kinds(rest.skip(1)),
            });
            match validate_kind(types[i].as_str()) {
                Ok(()) => {},
                Err(e) => {
                    assert(check_kinds(views(types@)) == check_kinds(rest));
                    assert(file_check(f) == check_kinds(rest));
                    assert(token_check(type_label(), rest[0]) is Err);
                    assert(token_check(type_label(), types@[i as int]@) matches Err(x) && x == e@);
                    assert(file_check(f) matches Err(x) && x == e@);
                    return Err(e);
                },
            }
            assert(rest.skip(1) =~= views(types@).skip(i + 1));
            i = i + 1;
        }
        let editor = match editor {
            Some(e) => Some(e),
            None => env_editor,
        };
        let c = Config { log_dir, default_project, default_type, types, editor };
        proof {
            assert(views(c.types@).contains(c.default_type@));
            assert(check_kinds(views(types@).skip(i as int)) == Ok::<(), ErrorView>(()));
        }
        Ok(c)
    }

    /// The project of a new entry: the one given, else the default project;
    /// it must be a valid token where there is one.
    pub fn resolve_project(&self, project: Option<&str>) -> (r: Result<Option<String>, WrkError>)
        ensures
            match project_resolution(opt_string_view(self.default_project), opt_str_view(project)) {
                Ok(v) => r matches Ok(x) && opt_string_view(x) == v,
                Err(e) => r matches Err(x) && x@ == e,
            },
    {
        let value: Option<String> = match project {
            Some(p) => Some(String::from_str(p)),
            None => match &self.default_project {
                Some(d) => Some(d.clone()),
                None => None,
            },
        };
        match value {
            Some(v) => {
                validate_project(Some(v.as_str()))?;
                Ok(Some(v))
            },
            None => Ok(None),
        }
    }

    /// The type of a new entry: the one given, else the default type; it
    /// must be a valid token and one of the allowed types.
    pub fn resolve_kind(&self, kind: Option<&str>) -> (r: Result<String, WrkError>)
        ensures
            match kind_resolution(self.default_type@, views(self.types@), opt_str_view(kind)) {
                Ok(v) => r matches Ok(x) && x@ == v,
                Err(e) => r matches Err(x) && x@ == e,
            },
    {
        let resolved: String = match kind {
            Some(k) => String::from_str(k),
            None => self.default_type.clone(),
        };
        validate_kind(resolved.as_str())?;
        if !contains_string(&self.types, &resolved) {
            return Err(WrkError::UnknownType { value: resolved, allowed: copy_strings(&self.types) });
        }
        Ok(resolved)
    }
}

/// The first of `kinds` that is not a valid type, as an error.
pub open spec fn check_kinds(kinds: Seq<Seq<char>>) -> Result<(), ErrorView>
    decreases kinds.len(),
{
    if kinds.len() == 0 {
        Ok(())
    } else {
        match token_check(type_label(), kinds[0]) {
            Err(e) => Err(e),
            Ok(()) => check_kinds(kinds.skip(1)),
        }
    }
}

pub proof fn lemma_check_kinds_ok(kinds: Seq<Seq<char>>)
    ensures
        check_kinds(kinds) is Ok <==> forall|i: int| 0 <= i < kinds.len() ==> is_token(#[trigger] kinds[i]),
    decreases kinds.len(),
{
    if kinds.len() > 0 {
        lemma_check_kinds_ok(kinds.skip(1));
        if token_check(type_label(), kinds[0]) is Ok {
            assert forall|i: int| 0 <= i < kinds.len() && (forall|j: int| 0 <= j < kinds.skip(1).len() ==> is_token(#[trigger] kinds.skip(1)[j])) implies is_token(#[trigger] kinds[i]) by {
                if i > 0 {
                    assert(kinds[i] == kinds.skip(1)[i - 1]);
                }
            }
            assert forall|j: int| 0 <= j < kinds.skip(1).len() && (forall|i: int| 0 <= i < kinds.len() ==> is_token(#[trigger] kinds[i])) implies is_token(#[trigger] kinds.skip(1)[j]) by {
                assert(kinds.skip(1)[j] == kinds[j + 1]);
            }
        }
    }
}

/// The default project that a file sets; an empty one counts as none.
pub open spec fn file_default_project(f: FileConfig) -> Option<Seq<char>> {
    match f.default_project {
        Some(p) if p@.len() > 0 => Some(p@),
        _ => None,
    }
}

/// The default type that a file sets, else `note`.
pub open spec fn file_default_type(f: FileConfig) -> Seq<char> {
    match f.default_type {
        Some(t) => t@,
        None => "note"@,
    }
}

/// The allowed types that a file sets (else the default type alone), with
/// the default type added at the end where it is missing.
pub open spec fn file_types(f: FileConfig) -> Seq<Seq<char>> {
    let listed = match f.types {
        Some(ts) => views(ts@),
        None => seq![file_default_type(f)],
    };
    if listed.contains(file_default_type(f)) {
        listed
    } else {
        listed.push(file_default_type(f))
    }
}

/// What checking the settings of a file gives: the default project, the
/// default type, then each allowed type.
pub open spec fn file_check(f: FileConfig) -> Result<(), ErrorView> {
    match file_default_project(f) {
        Some(p) if token_check(project_label(), p) is Err => token_check(project_label(), p),
        _ => match token_check(type_label(), file_default_type(f)) {
            Err(e) => Err(e),
            Ok(()) => check_kinds(file_types(f)),
        },
    }
}

/// `rel` joined to `base` as `PathBuf::join` does on Unix: an absolute
/// `rel` replaces `base`, else a separator stands between them unless `base`
/// is empty or already ends in one.
pub open spec fn join_path(base: Seq<char>, rel: Seq<char>) -> Seq<char> {
    if rel.len() > 0 && rel[0] == '/' {
        rel
    } else if base.len() == 0 || base.last() == '/' {
        base + rel
    } else {
        base + seq!['/'] + rel
    }
}

/// Joins `rel` to `base` as `PathBuf::join` does on Unix.
pub fn path_join(base: &str, rel: &str) -> (r: String)
    ensures
        r@ == join_path(base@, rel@),
{
    let b = chars_of(base);
    let c = chars_of(rel);
    if c.len() > 0 && c[0] == '/' {
        return String::from_str(rel);
    }
    let mut out = String::from_str(base);
    if !(b.len() == 0 || b[b.len() - 1] == '/') {
        out.append("/");
        proof {
            reveal_strlit("/");
        }
    }
    out.append(rel);
    out
}

/// The user's home directory, as the `dirs` crate finds it
/// (`dirs::home_dir`). Which directory it is depends on the environment of
/// the process and is not stated; on Unix the crate gives none rather than
/// an empty path (`$HOME` when it is not empty, else a non-empty home from
/// the password database), so a directory found is never empty.
#[verifier::external_body]
fn dirs_home_dir() -> (r: Option<String>)
    ensures
        r matches Some(h) ==> h@.len() > 0,
{
    dirs::home_dir().map(|p| p.to_string_lossy().into_owned())
}

pub open spec fn home_or_tilde(found: Option<Seq<char>>) -> Seq<char> {
    match found {
        Some(h) => h,
        None => "~"@,
    }
}

/// The home directory that was found, else `~`.
pub fn home_or_tilde_of(found: Option<String>) -> (r: String)
    ensures
        r@ == home_or_tilde(opt_string_view(found)),
{
    match found {
        Some(h) => h,
        None => String::from_str("~"),
    }
}

pub open spec fn opt_string_view(o: Option<String>) -> Option<Seq<char>> {
    match o {
        Some(s) => Some(s@),
        None => None,
    }
}

/// The home directory; `~` where none is found. Which directory it is
/// depends on the environment of the process; it is never empty.
fn home_dir() -> (r: String)
    ensures
        r@.len() > 0,
{
    proof {
        reveal_strlit("~");
    }
    home_or_tilde_of(dirs_home_dir())
}

/// A path of the configuration with a leading `~` taken as the home
/// directory `home`.
pub open spec fn tilde_expanded(raw: Seq<char>, home: Seq<char>) -> Seq<char> {
    if raw == "~"@ {
        home
    } else if starts_with(raw, "~/"@) {
        join_path(home, raw.skip(2))
    } else {
        raw
    }
}

/// Expands a leading `~` to the given home directory.
pub fn expand_tilde_with(raw: &str, home: &str) -> (r: String)
    ensures
        r@ == tilde_expanded(raw@, home@),
{
    let cs = chars_of(raw);
    proof {
        reveal_strlit("~");
        reveal_strlit("~/");
    }
    if cs.len() == 1 && cs[0] == '~' {
        assert(raw@ =~= "~"@);
        return String::from_str(home);
    }
    assert(raw@ != "~"@);
    if cs.len() >= 2 && cs[0] == '~' && cs[1] == '/' {
        assert(raw@.take(2) =~= "~/"@);
        let rest = string_from_range(&cs, 2, cs.len());
        assert(rest@ =~= raw@.skip(2));
        return path_join(home, rest.as_str());
    }
    proof {
        if starts_with(raw@, "~/"@) {
            assert(raw@.take(2)[0] == '~' && raw@.take(2)[1] == '/');
        }
    }
    String::from_str(raw)
}

/// Expands a leading `~` to the home directory of the process.
pub fn expand_tilde(raw: &str) -> (r: Result<String, WrkError>)
    ensures
        r matches Ok(p) && exists|h: Seq<char>| h.len() > 0 && p@ == tilde_expanded(raw@, h),
{
    let home = home_dir();
    let p = expand_tilde_with(raw, home.as_str());
    Ok(p)
}

/// `~/.wrkrc`.
pub fn default_config_path() -> (r: String)
    ensures
        exists|h: Seq<char>| h.len() > 0 && r@ == join_path(h, ".wrkrc"@),
{
    let home = home_dir();
    path_join(home.as_str(), ".wrkrc")
}

/// `~/wrk`.
pub fn default_log_dir() -> (r: String)
    ensures
        exists|h: Seq<char>| h.len() > 0 && r@ == join_path(h, "wrk"@),
{
    let home = home_dir();
    path_join(home.as_str(), "wrk")
}

/// The editor named by `$VISUAL`, else by `$EDITOR`; an empty value counts
/// as none.
pub open spec fn editor_choice(visual: Option<Seq<char>>, editor: Option<Seq<char>>) -> Option<
    Seq<char>,
> {
    match visual {
        Some(v) if v.len() > 0 => Some(v),
        _ => match editor {
            Some(e) if e.len() > 0 => Some(e),
            _ => None,
        },
    }
}

/// Picks the editor from the values of `$VISUAL` and `$EDITOR`.
pub fn resolve_editor_from_env(visual: Option<String>, editor: Option<String>) -> (r: Option<
    String,
>)
    ensures
        opt_string_view(r) == editor_choice(opt_string_view(visual), opt_string_view(editor)),
{
    match visual {
        Some(v) if v.as_str().is_empty() == false => Some(v),
        _ => match editor {
            Some(e) if e.as_str().is_empty() == false => Some(e),
            _ => None,
        },
    }
}

} // verus!
