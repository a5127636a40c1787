//! The compilation database (`compile_commands.json`): validating its entries,
//! turning them into compilation contexts and looking contexts up.
use vstd::prelude::*;
use std::hash::BuildHasher;
use crate::diagnostic::{AnalysisCause, AnalysisIssue, Diagnostic, InputError, Severity};
use crate::model::{CompilationContext, CompilationKey};
use crate::order::{OrdMap, enc_path, path_key, entry_list, list_at};
use crate::paths::{file_name, file_name_spec, is_absolute, has_root, join, join_spec};
use crate::text::{chars_of, trim_chars, trim_spec, push_char, push_str, format_u64, digits, string_of};

verus! {

broadcast use vstd::string::group_string_axioms;

/// One entry of `compile_commands.json`.
#[derive(Debug)]
pub struct RawCompileEntry {
    /// Working directory
    pub directory: Option<String>,
    /// Source file
    pub file: Option<String>,
    /// Command line (used when `arguments` is absent)
    pub command: Option<String>,
    /// Argument list
    pub arguments: Option<Vec<String>>,
    /// Build output (optional)
    pub output: Option<String>,
}

/// What reading `compile_commands.json` gave.
#[derive(Debug)]
pub enum DatabaseFile {
    /// The file does not exist
    Missing,
    /// The file could not be read (the reason)
    Unreadable(String),
    /// The file is not a JSON array of entries (the parser's message)
    Malformed(String),
    /// The entries, in file order
    Entries(Vec<RawCompileEntry>),
}

/// Contexts per source file, ordered by the file's path.
pub type FileContexts = OrdMap<(String, Vec<CompilationContext>)>;

/// The compilation database: contexts per source file, several per file.
#[derive(Debug)]
pub struct CompilationDb {
    /// Contexts per normalized source file, ordered by path
    pub source_file_to_contexts: OrdMap<(String, Vec<CompilationContext>)>,
    /// Diagnostics gathered while loading (unusable entries and the like)
    pub diagnostics: Vec<Diagnostic>,
}

/// A lexer state of [`shlex_split`].
pub ghost struct LexState {
    pub args: Seq<Seq<char>>,
    pub current: Seq<char>,
    pub single: bool,
    pub double: bool,
    pub escaped: bool,
}

pub open spec fn lex_start() -> LexState {
    LexState { args: Seq::empty(), current: Seq::empty(), single: false, double: false, escaped: false }
}

/// One character of the command lexer: a backslash escapes the next character
/// outside single quotes, quotes toggle quoting, unquoted blanks end a word.
pub open spec fn lex_step(st: LexState, c: char) -> LexState {
    if st.escaped {
        LexState { current: st.current.push(c), escaped: false, ..st }
    } else if c == '\\' && !st.single {
        LexState { escaped: true, ..st }
    } else if c == '\'' && !st.double {
        LexState { single: !st.single, ..st }
    } else if c == '"' && !st.single {
        LexState { double: !st.double, ..st }
    } else if (c == ' ' || c == '\t' || c == '\r' || c == '\n') && !st.single && !st.double {
        if st.current.len() > 0 {
            LexState { args: st.args.push(st.current), current: Seq::empty(), ..st }
        } else {
            st
        }
    } else {
        LexState { current: st.current.push(c), ..st }
    }
}

pub open spec fn lex_run(s: Seq<char>) -> LexState
    decreases s.len(),
{
    if s.len() == 0 {
        lex_start()
    } else {
        lex_step(lex_run(s.drop_last()), s.last())
    }
}

/// The words of a command line, split without running a shell.
pub open spec fn shlex_spec(s: Seq<char>) -> Seq<Seq<char>> {
    let st = lex_run(s);
    if st.current.len() > 0 {
        st.args.push(st.current)
    } else {
        st.args
    }
}

/// Splits a command line into words without running a shell.
pub fn shlex_split(cmd: &str) -> (r: Vec<String>)
    ensures
        r@.map_values(|a: String| a@) == shlex_spec(cmd@),
{
    let cs = chars_of(cmd);
    let n = cs.len();
    let mut args: Vec<String> = Vec::new();
    let mut current: Vec<char> = Vec::new();
    let mut single = false;
    let mut double = false;
    let mut escaped = false;
    assert(args@.map_values(|a: String| a@) =~= Seq::<Seq<char>>::empty());
    assert(cs@.take(0) =~= Seq::<char>::empty());
    assert(current@ =~= Seq::<char>::empty());
    for i in 0..n
        invariant
            n == cs@.len(),
            cs@ == cmd@,
            lex_run(cs@.take(i as int)) == (LexState {
                args: args@.map_values(|a: String| a@),
                current: current@,
                single,
                double,
                escaped,
            }),
    {
        let ch = cs[i];
        assert(cs@.take(i + 1).drop_last() =~= cs@.take(i as int));
        let ghost prev = args@;
        if escaped {
            current.push(ch);
            escaped = false;
        } else if ch == '\\' && !single {
            escaped = true;
        } else if ch == '\'' && !double {
            single = !single;
        } else if ch == '"' && !single {
            double = !double;
        } else if (ch == ' ' || ch == '\t' || ch == '\r' || ch == '\n') && !single && !double {
            if current.len() > 0 {
                let word = string_of(&current);
                args.push(word);
                current = Vec::new();
                assert(args@.map_values(|a: String| a@) =~= prev.map_values(|a: String| a@).push(word@));
            }
        } else {
            current.push(ch);
        }
        assert(args@.map_values(|a: String| a@) == lex_run(cs@.take(i + 1)).args);
    }
    assert(cs@.take(n as int) =~= cs@);
    if current.len() > 0 {
        let ghost prev = args@;
        let word = string_of(&current);
        args.push(word);
        assert(args@.map_values(|a: String| a@) =~= prev.map_values(|a: String| a@).push(word@));
    }
    args
}

/// Whether `a` ends with `b`.
pub open spec fn ends_with(a: Seq<char>, b: Seq<char>) -> bool {
    b.len() <= a.len() && a.subrange(a.len() - b.len(), a.len() as int) == b
}

/// Whether `a` starts with `b`.
pub open spec fn starts_with(a: Seq<char>, b: Seq<char>) -> bool {
    b.len() <= a.len() && a.subrange(0, b.len() as int) == b
}

pub fn ends_with_exec(a: &str, b: &str) -> (r: bool)
    ensures
        r == ends_with(a@, b@),
{
    let ac = chars_of(a);
    let bc = chars_of(b);
    if bc.len() > ac.len() {
        return false;
    }
    let off = ac.len() - bc.len();
    let r = crate::text::matches_at(&ac, &bc, off);
    assert(r == ends_with(a@, b@)) by {
        assert(off + bc@.len() == ac@.len());
    }
    r
}

pub fn starts_with_exec(a: &str, b: &str) -> (r: bool)
    ensures
        r == starts_with(a@, b@),
{
    let ac = chars_of(a);
    let bc = chars_of(b);
    crate::text::matches_at(&ac, &bc, 0)
}

/// Output-file options whose value is the next argument.
pub open spec fn is_output_flag(a: Seq<char>) -> bool {
    a == "-o"@ || a == "/Fo"@ || a == "-MF"@ || a == "-dependency-file"@
}

/// Compile-step and dependency flags that carry no semantic information.
pub open spec fn is_step_flag(a: Seq<char>) -> bool {
    a == "-c"@ || a == "/c"@ || a == "-emit-obj"@ || a == "-MD"@ || a == "-MMD"@ || a == "-MP"@
}

/// Whether an argument is dropped on its own: an output flag glued to its value
/// (`-ofile`, `/Fofile`), a compile-step flag, or the source file itself.
pub open spec fn drops_alone(a: Seq<char>, target: Seq<char>, target_name: Seq<char>) -> bool {
    ||| (starts_with(a, "-o"@) && a.len() > 2)
    ||| (starts_with(a, "/Fo"@) && a.len() > 3)
    ||| is_step_flag(a)
    ||| a == target
    ||| ends_with(a, target_name)
}

/// The kept arguments of `args`, given whether the first one is an output value
/// to skip.
pub open spec fn normalize_from(args: Seq<Seq<char>>, skip: bool, target: Seq<char>, target_name: Seq<char>) -> Seq<Seq<char>>
    decreases args.len(),
{
    if args.len() == 0 {
        Seq::empty()
    } else {
        let a = args[0];
        let rest = args.drop_first();
        if skip {
            normalize_from(rest, false, target, target_name)
        } else if is_output_flag(a) {
            normalize_from(rest, true, target, target_name)
        } else if drops_alone(a, target, target_name) {
            normalize_from(rest, false, target, target_name)
        } else {
            seq![a] + normalize_from(rest, false, target, target_name)
        }
    }
}

/// The file name the source file is recognised by among the arguments.
pub open spec fn target_name_spec(target: Seq<char>) -> Seq<char> {
    match file_name_spec(target) {
        Some(n) => n,
        None => target,
    }
}

/// The arguments Clang needs from a compile command: without the compiler (the
/// first argument, always), output options and their values,
/// compile-step flags, and the source file itself.
pub open spec fn normalize_spec(raw: Seq<Seq<char>>, target: Seq<char>) -> Seq<Seq<char>> {
    let args = if raw.len() > 0 { raw.drop_first() } else { raw };
    normalize_from(args, false, target, target_name_spec(target))
}

proof fn lemma_normalize_step(args: Seq<Seq<char>>, i: int, skip: bool, t: Seq<char>, tn: Seq<char>)
    requires
        0 <= i < args.len(),
    ensures
        normalize_from(args.skip(i), skip, t, tn) == {
            let a = args[i];
            if skip {
                normalize_from(args.skip(i + 1), false, t, tn)
            } else if is_output_flag(a) {
                normalize_from(args.skip(i + 1), true, t, tn)
            } else if drops_alone(a, t, tn) {
                normalize_from(args.skip(i + 1), false, t, tn)
            } else {
                seq![a] + normalize_from(args.skip(i + 1), false, t, tn)
            }
        },
{
    assert(args.skip(i).drop_first() =~= args.skip(i + 1));
    assert(args.skip(i)[0] == args[i]);
}

fn is_output_flag_exec(a: &str) -> (r: bool)
    ensures
        r == is_output_flag(a@),
{
    crate::text::str_eq(a, "-o") || crate::text::str_eq(a, "/Fo") || crate::text::str_eq(a, "-MF")
        || crate::text::str_eq(a, "-dependency-file")
}

fn is_step_flag_exec(a: &str) -> (r: bool)
    ensures
        r == is_step_flag(a@),
{
    crate::text::str_eq(a, "-c") || crate::text::str_eq(a, "/c") || crate::text::str_eq(a, "-emit-obj")
        || crate::text::str_eq(a, "-MD") || crate::text::str_eq(a, "-MMD") || crate::text::str_eq(a, "-MP")
}

/// Keeps only the arguments Clang needs to interpret the source file.
pub fn normalize_compiler_args(raw_args: &[String], target_file_spelling: &str) -> (r: Vec<String>)
    ensures
        r@.map_values(|a: String| a@) == normalize_spec(raw_args@.map_values(|a: String| a@), target_file_spelling@),
{
    let ghost raw = raw_args@.map_values(|a: String| a@);
    let start: usize = if raw_args.len() > 0 { 1 } else { 0 };
    let ghost args = if raw.len() > 0 { raw.drop_first() } else { raw };
    let target_name = match file_name(target_file_spelling) {
        Some(n) => n,
        None => target_file_spelling.to_string(),
    };
    let ghost tn = target_name_spec(target_file_spelling@);
    assert(target_name@ == tn);
    let mut result: Vec<String> = Vec::new();
    let mut skip_next = false;
    let n = raw_args.len();
    let mut i = start;
    assert(args =~= raw.skip(start as int));
    while i < n
        invariant
            start <= i <= n == raw_args@.len(),
            raw == raw_args@.map_values(|a: String| a@),
            args == raw.skip(start as int),
            target_name@ == tn,
            tn == target_name_spec(target_file_spelling@),
            result@.map_values(|a: String| a@) + normalize_from(raw.skip(i as int), skip_next, target_file_spelling@, tn)
                == normalize_from(args, false, target_file_spelling@, tn),
        decreases n - i,
    {
        let arg = &raw_args[i];
        proof {
            lemma_normalize_step(raw, i as int, skip_next, target_file_spelling@, tn);
            assert(raw[i as int] == arg@);
        }
        let ghost prev = result@;
        if skip_next {
            skip_next = false;
        } else if is_output_flag_exec(arg.as_str()) {
            skip_next = true;
        } else if (starts_with_exec(arg.as_str(), "-o") && arg.as_str().unicode_len() > 2)
            || (starts_with_exec(arg.as_str(), "/Fo") && arg.as_str().unicode_len() > 3)
            || is_step_flag_exec(arg.as_str()) || crate::text::str_eq(arg.as_str(), target_file_spelling)
            || ends_with_exec(arg.as_str(), target_name.as_str()) {
        } else {
            let kept = arg.clone();
            result.push(kept);
            assert(result@.map_values(|a: String| a@) =~= prev.map_values(|a: String| a@).push(kept@));
        }
        i = i + 1;
    }
    assert(raw.skip(n as int) =~= Seq::<Seq<char>>::empty());
    assert(result@.map_values(|a: String| a@) + Seq::<Seq<char>>::empty() =~= result@.map_values(|a: String| a@));
    result
}

/// The hash that `std::hash::DefaultHasher` (built by `BuildHasherDefault`)
/// gives a string.
pub uninterp spec fn default_hash(s: Seq<char>) -> u64;

/// Hashes a string with std's `DefaultHasher` through
/// `BuildHasherDefault::hash_one`. The contract names the result: the same
/// string always hashes to the same value (the default hasher has fixed keys).
#[verifier::external_body]
fn default_hash_of(s: &str) -> (r: u64)
    ensures
        r == default_hash(s@),
{
    std::hash::BuildHasherDefault::<std::hash::DefaultHasher>::default().hash_one(s)
}

/// A stable digest of a string.
pub fn calculate_hash(s: &str) -> (r: u64)
    ensures
        r == default_hash(s@),
{
    default_hash_of(s)
}

/// The words of a list joined by single spaces.
pub open spec fn join_words(ws: Seq<Seq<char>>) -> Seq<char>
    decreases ws.len(),
{
    if ws.len() == 0 {
        Seq::empty()
    } else if ws.len() == 1 {
        ws[0]
    } else {
        join_words(ws.drop_last()) + seq![' '] + ws.last()
    }
}

fn join_with_spaces(ws: &Vec<String>) -> (r: String)
    ensures
        r@ == join_words(ws@.map_values(|a: String| a@)),
{
    let ghost wv = ws@.map_values(|a: String| a@);
    let mut out = String::new();
    let n = ws.len();
    for i in 0..n
        invariant
            n == ws@.len(),
            wv == ws@.map_values(|a: String| a@),
            out@ == join_words(wv.take(i as int)),
    {
        assert(wv.take(i + 1).drop_last() =~= wv.take(i as int));
        if i > 0 {
            push_char(&mut out, ' ');
        } else {
            assert(wv.take(0) =~= Seq::<Seq<char>>::empty());
        }
        push_str(&mut out, ws[i].as_str());
    }
    assert(wv.take(n as int) =~= wv);
    out
}

/// The text a compilation key digests: directory, source file and the normalized
/// arguments, separated by `|`.
pub open spec fn key_content(dir: Seq<char>, file: Seq<char>, args: Seq<Seq<char>>) -> Seq<char> {
    dir + seq!['|'] + file + seq!['|'] + join_words(args)
}

/// The compilation key: the lower-case hexadecimal digest of the key content.
pub open spec fn key_spec(dir: Seq<char>, file: Seq<char>, args: Seq<Seq<char>>) -> Seq<char> {
    digits(default_hash(key_content(dir, file, args)) as nat, 16)
}

/// An entry that passed validation, before its paths are normalized.
#[derive(Debug)]
pub struct ValidEntry {
    /// The entry's working directory as written
    pub directory: String,
    /// The entry's source file as written
    pub file: String,
    /// The compile command's words
    pub raw_args: Vec<String>,
}

/// The diagnostic of an unusable entry.
pub open spec fn entry_issue(index: nat, what: Seq<char>, cause: Seq<char>) -> (Seq<char>, Seq<char>) {
    ("엔트리 #"@ + digits(index, 10) + ": "@ + what, cause)
}

/// Whether a diagnostic is the recoverable issue of an unusable entry with this
/// message and cause.
pub open spec fn is_entry_issue(d: Diagnostic, message: Seq<char>, cause: Seq<char>) -> bool {
    match d {
        Diagnostic::Analysis(issue) => {
            &&& issue.severity == Severity::Recoverable
            &&& issue.context is None
            &&& issue.location is None
            &&& issue.message@ == message
            &&& match issue.cause {
                AnalysisCause::Other(c) => c@ == cause,
                _ => false,
            }
        },
        _ => false,
    }
}

fn entry_diagnostic(index: usize, what: &str, cause: &str) -> (r: Diagnostic)
    ensures
        is_entry_issue(r, entry_issue(index as nat, what@, cause@).0, cause@),
{
    let mut message = "엔트리 #".to_string();
    let d = format_u64(index as u64, 10);
    push_str(&mut message, d.as_str());
    push_str(&mut message, ": ");
    push_str(&mut message, what);
    Diagnostic::analysis(AnalysisIssue {
        severity: Severity::Recoverable,
        context: None,
        location: None,
        message,
        cause: AnalysisCause::Other(cause.to_string()),
    })
}

/// Whether an optional field holds text other than white space.
pub open spec fn present(f: Option<String>) -> bool {
    f matches Some(s) && trim_spec(s@).len() > 0
}

fn present_exec(f: &Option<String>) -> (r: bool)
    ensures
        r == present(*f),
{
    match f {
        Some(s) => {
            let cs = chars_of(s.as_str());
            trim_chars(&cs).len() > 0
        },
        None => false,
    }
}

/// The arguments an entry gives: `arguments` when present, else the words of
/// `command`.
pub open spec fn entry_args(e: RawCompileEntry) -> Option<Seq<Seq<char>>> {
    match e.arguments {
        Some(a) => Some(a@.map_values(|x: String| x@)),
        None => match e.command {
            Some(c) => Some(shlex_spec(c@)),
            None => None,
        },
    }
}

/// Validates one entry (numbered from 0): it needs a non-blank `directory` and
/// `file`, and `arguments` or `command` giving at least one word.
pub fn validate_entry(entry: RawCompileEntry, index: usize) -> (r: Result<ValidEntry, Diagnostic>)
    ensures
        !present(entry.directory) ==> (r matches Err(d) && is_entry_issue(d,
            entry_issue(index as nat, "'directory' 필드가 누락되었거나 비어 있습니다."@, "MissingDirectoryField"@).0,
            "MissingDirectoryField"@)),
        present(entry.directory) && !present(entry.file) ==> (r matches Err(d) && is_entry_issue(d,
            entry_issue(index as nat, "'file' 필드가 누락되었거나 비어 있습니다."@, "MissingFileField"@).0,
            "MissingFileField"@)),
        present(entry.directory) && present(entry.file) && entry_args(entry) is None ==> (r matches Err(d)
            && is_entry_issue(d,
            entry_issue(index as nat, "'arguments' 또는 'command' 필드가 없습니다."@, "MissingArgumentsOrCommand"@).0,
            "MissingArgumentsOrCommand"@)),
        present(entry.directory) && present(entry.file) && entry_args(entry) == Some(Seq::<Seq<char>>::empty())
            ==> (r matches Err(d) && is_entry_issue(d,
            entry_issue(index as nat, "컴파일러 인자가 비어 있습니다."@, "EmptyArguments"@).0,
            "EmptyArguments"@)),
        r is Ok <==> (present(entry.directory) && present(entry.file) && entry_args(entry) is Some
            && entry_args(entry) != Some(Seq::<Seq<char>>::empty())),
        r matches Ok(v) ==> (Some(v.directory@) == (match entry.directory { Some(d) => Some(d@), None => None })
            && Some(v.file@) == (match entry.file { Some(f) => Some(f@), None => None })
            && entry_args(entry) == Some(v.raw_args@.map_values(|x: String| x@))),
{
    if !present_exec(&entry.directory) {
        return Err(entry_diagnostic(index, "'directory' 필드가 누락되었거나 비어 있습니다.", "MissingDirectoryField"));
    }
    if !present_exec(&entry.file) {
        return Err(entry_diagnostic(index, "'file' 필드가 누락되었거나 비어 있습니다.", "MissingFileField"));
    }
    let ghost e = entry;
    let RawCompileEntry { directory, file, command, arguments, output: _ } = entry;
    let directory = match directory {
        Some(d) => d,
        None => String::new(),
    };
    let file = match file {
        Some(f) => f,
        None => String::new(),
    };
    let raw_args = match arguments {
        Some(a) => a,
        None => match command {
            Some(c) => shlex_split(c.as_str()),
            None => {
                return Err(entry_diagnostic(index, "'arguments' 또는 'command' 필드가 없습니다.", "MissingArgumentsOrCommand"));
            },
        },
    };
    if raw_args.len() == 0 {
        assert(raw_args@.map_values(|x: String| x@) =~= Seq::<Seq<char>>::empty());
        return Err(entry_diagnostic(index, "컴파일러 인자가 비어 있습니다.", "EmptyArguments"));
    }
    assert(raw_args@.map_values(|x: String| x@).len() > 0);
    assert(raw_args@.map_values(|x: String| x@) != Seq::<Seq<char>>::empty());
    Ok(ValidEntry { directory, file, raw_args })
}

impl ValidEntry {
    /// Whether the working directory is absolute, and so is normalized against
    /// the file system before use.
    pub fn directory_is_absolute(&self) -> (r: bool)
        ensures
            r == has_root(self.directory@),
    {
        is_absolute(self.directory.as_str())
    }

    /// The source file's path: as written when absolute, else under the
    /// (normalized) working directory.
    pub fn file_path(&self, normalized_dir: &str) -> (r: String)
        ensures
            r@ == (if has_root(self.file@) { self.file@ } else { join_spec(normalized_dir@, self.file@) }),
    {
        if is_absolute(self.file.as_str()) {
            self.file.clone()
        } else {
            join(normalized_dir, self.file.as_str())
        }
    }

    /// The compilation context of the entry, given its normalized directory and
    /// source file.
    pub fn into_context(self, normalized_dir: String, normalized_file: String) -> (r: CompilationContext)
        ensures
            r.directory == normalized_dir,
            r.source_file == normalized_file,
            r.clang_args@.map_values(|a: String| a@) == normalize_spec(self.raw_args@.map_values(|a: String| a@), self.file@),
            r.key.0@ == key_spec(normalized_dir@, normalized_file@, r.clang_args@.map_values(|a: String| a@)),
    {
        let args = normalize_compiler_args(self.raw_args.as_slice(), self.file.as_str());
        let mut content = normalized_dir.clone();
        push_char(&mut content, '|');
        push_str(&mut content, normalized_file.as_str());
        push_char(&mut content, '|');
        let joined = join_with_spaces(&args);
        push_str(&mut content, joined.as_str());
        assert(content@ == key_content(normalized_dir@, normalized_file@, args@.map_values(|a: String| a@)));
        let h = calculate_hash(content.as_str());
        let key = CompilationKey(format_u64(h, 16));
        CompilationContext { key, directory: normalized_dir, source_file: normalized_file, clang_args: args }
    }
}

/// The context at position `j` of the `i`-th file.
pub open spec fn ctx_at(m: FileContexts, i: int, j: int) -> CompilationContext {
    m.vals@[i].1@[j]
}

/// Whether `(i, j)` addresses a stored context.
pub open spec fn valid_pos(m: FileContexts, i: int, j: int) -> bool {
    0 <= i < m.vals@.len() && 0 <= j < m.vals@[i].1@.len()
}

/// Whether some stored context has this key.
pub open spec fn has_key(db: CompilationDb, k: Seq<char>) -> bool {
    exists|i: int, j: int| valid_pos(db.source_file_to_contexts, i, j) && #[trigger] ctx_at(db.source_file_to_contexts, i, j).key.0@ == k
}

impl CompilationDb {
    /// Each file entry is keyed by its path and holds contexts of that source
    /// file, and no two stored contexts share a key.
    pub open spec fn wf(&self) -> bool {
        &&& self.source_file_to_contexts.wf()
        &&& forall|i: int| 0 <= i < self.source_file_to_contexts.vals@.len() ==>
            #[trigger] self.source_file_to_contexts.key_view()[i] == enc_path(self.source_file_to_contexts.vals@[i].0@)
        &&& forall|i: int, j: int| valid_pos(self.source_file_to_contexts, i, j)
            ==> enc_path(#[trigger] ctx_at(self.source_file_to_contexts, i, j).source_file@) == self.source_file_to_contexts.key_view()[i]
        &&& forall|i1: int, j1: int, i2: int, j2: int|
            valid_pos(self.source_file_to_contexts, i1, j1) && valid_pos(self.source_file_to_contexts, i2, j2) && (i1 != i2 || j1 != j2)
            ==> #[trigger] ctx_at(self.source_file_to_contexts, i1, j1).key.0@ != #[trigger] ctx_at(self.source_file_to_contexts, i2, j2).key.0@
    }

    /// An empty database.
    pub fn new() -> (r: Self)
        ensures
            r.wf(),
            r.source_file_to_contexts.size() == 0,
            r.diagnostics@.len() == 0,
    {
        CompilationDb { source_file_to_contexts: OrdMap::new(), diagnostics: Vec::new() }
    }

    /// The database analysis goes on with: the loaded one, or, when loading
    /// failed, an empty one that records the failure as its diagnostic.
    pub fn or_empty(loaded: Result<CompilationDb, InputError>) -> (r: CompilationDb)
        ensures
            loaded matches Ok(db) ==> r == db,
            loaded matches Err(e) ==> (r.wf() && r.source_file_to_contexts.size() == 0
                && r.diagnostics@ == seq![Diagnostic::Input(e)]),
    {
        match loaded {
            Ok(db) => db,
            Err(e) => {
                let mut db = CompilationDb::new();
                db.diagnostics.push(Diagnostic::Input(e));
                db
            },
        }
    }

    /// Starts loading from what reading `path` gave: a missing, unreadable or
    /// malformed file is an input error; an empty list gives an empty database
    /// with a recoverable diagnostic; otherwise the entries are returned to be
    /// processed in order.
    pub fn begin_load(path: &str, file: DatabaseFile) -> (r: Result<(CompilationDb, Vec<RawCompileEntry>), InputError>)
        ensures
            file is Missing ==> (r matches Err(InputError::InvalidCompilationDatabase { path: p, reason })
                && p@ == path@ && reason@ == "지정된 compile_commands.json 파일이 존재하지 않습니다."@),
            file matches DatabaseFile::Unreadable(e) ==> (r matches Err(InputError::InvalidCompilationDatabase { path: p, reason })
                && p@ == path@ && reason@ == "파일을 읽을 수 없습니다: "@ + e@),
            file matches DatabaseFile::Malformed(e) ==> (r matches Err(InputError::InvalidCompilationDatabase { path: p, reason })
                && p@ == path@ && reason@ == "JSON 형식이 올바르지 않습니다: "@ + e@),
            file matches DatabaseFile::Entries(v) ==> (r matches Ok((db, rest)) && db.wf()
                && db.source_file_to_contexts.size() == 0
                && (v@.len() == 0 ==> rest@.len() == 0 && db.diagnostics@.len() == 1
                    && is_entry_issue(db.diagnostics@[0], "compile_commands.json이 비어 있습니다."@, "EmptyCompilationDatabase"@))
                && (v@.len() > 0 ==> rest == v && db.diagnostics@.len() == 0)),
    {
        match file {
            DatabaseFile::Missing => Err(InputError::InvalidCompilationDatabase {
                path: path.to_string(),
                reason: "지정된 compile_commands.json 파일이 존재하지 않습니다.".to_string(),
            }),
            DatabaseFile::Unreadable(e) => {
                let mut reason = "파일을 읽을 수 없습니다: ".to_string();
                push_str(&mut reason, e.as_str());
                Err(InputError::InvalidCompilationDatabase { path: path.to_string(), reason })
            },
            DatabaseFile::Malformed(e) => {
                let mut reason = "JSON 형식이 올바르지 않습니다: ".to_string();
                push_str(&mut reason, e.as_str());
                Err(InputError::InvalidCompilationDatabase { path: path.to_string(), reason })
            },
            DatabaseFile::Entries(v) => {
                let mut db = CompilationDb::new();
                if v.len() == 0 {
                    db.diagnostics.push(Diagnostic::analysis(AnalysisIssue {
                        severity: Severity::Recoverable,
                        context: None,
                        location: None,
                        message: "compile_commands.json이 비어 있습니다.".to_string(),
                        cause: AnalysisCause::Other("EmptyCompilationDatabase".to_string()),
                    }));
                    Ok((db, Vec::new()))
                } else {
                    Ok((db, v))
                }
            },
        }
    }

    /// Records the outcome of one entry: a diagnostic is kept; a context is added
    /// under its source file unless a context with the same key is already held.
    pub fn add_entry(&mut self, outcome: Result<CompilationContext, Diagnostic>)
        requires
            old(self).wf(),
        ensures
            final(self).wf(),
            outcome matches Err(d) ==> (final(self).diagnostics@ == old(self).diagnostics@.push(d)
                && final(self).source_file_to_contexts == old(self).source_file_to_contexts),
            outcome matches Ok(c) ==> final(self).diagnostics@ == old(self).diagnostics@,
            outcome matches Ok(c) ==> (has_key(*old(self), c.key.0@) ==>
                final(self).source_file_to_contexts == old(self).source_file_to_contexts),
            outcome matches Ok(c) ==> (!has_key(*old(self), c.key.0@) ==>
                has_key(*final(self), c.key.0@) && (exists|i: int| 0 <= i < final(self).source_file_to_contexts.vals@.len()
                    && #[trigger] final(self).source_file_to_contexts.key_view()[i] == enc_path(c.source_file@)
                    && final(self).source_file_to_contexts.vals@[i].1@.last() == c)),
    {
        match outcome {
            Err(d) => {
                self.diagnostics.push(d);
            },
            Ok(ctx) => {
                if self.context_by_key(&ctx.key).is_some() {
                    return;
                }
                let ghost k = ctx.key.0@;
                let ghost c = ctx;
                let fk = path_key(ctx.source_file.as_str());
                let ghost before = *self;
                assert(!has_key(before, k));
                match self.source_file_to_contexts.find(fk.as_slice()) {
                    Ok(i) => {
                        let (file, mut list) = self.source_file_to_contexts.replace_at(i, (String::new(), Vec::new()));
                        let ghost old_list = list@;
                        assert(old_list == before.source_file_to_contexts.vals@[i as int].1@);
                        list.push(ctx);
                        let _ = self.source_file_to_contexts.replace_at(i, (file, list));
                        proof {
                            let m = self.source_file_to_contexts;
                            let bm = before.source_file_to_contexts;
                            assert(m.keys == bm.keys);
                            assert(m.key_view() =~= bm.key_view());
                            assert(m.vals@.len() == bm.vals@.len());
                            assert(m.vals@[i as int].1@ == old_list.push(c));
                            assert forall|i1: int| 0 <= i1 < m.vals@.len() && i1 != i implies #[trigger] m.vals@[i1] == bm.vals@[i1] by {}
                            assert forall|i1: int| 0 <= i1 < m.vals@.len() implies
                                #[trigger] m.key_view()[i1] == enc_path(m.vals@[i1].0@) by {
                                if i1 != i { assert(m.vals@[i1] == bm.vals@[i1]); }
                            }
                            assert forall|i1: int, j1: int| valid_pos(self.source_file_to_contexts, i1, j1) implies
                                (if i1 == i && j1 == old_list.len() { ctx_at(self.source_file_to_contexts, i1, j1) == c } else { ctx_at(self.source_file_to_contexts, i1, j1) == ctx_at(before.source_file_to_contexts, i1, j1) && valid_pos(before.source_file_to_contexts, i1, j1) }) by {
                                if i1 != i { assert(m.vals@[i1] == bm.vals@[i1]); }
                            }
                            assert forall|i1: int, j1: int| valid_pos(self.source_file_to_contexts, i1, j1) implies
                                enc_path(#[trigger] ctx_at(self.source_file_to_contexts, i1, j1).source_file@) == m.key_view()[i1] by {
                                if i1 != i {
                                    assert(m.vals@[i1] == bm.vals@[i1]);
                                    assert(ctx_at(self.source_file_to_contexts, i1, j1) == ctx_at(before.source_file_to_contexts, i1, j1));
                                } else if j1 < old_list.len() {
                                    assert(ctx_at(self.source_file_to_contexts, i1, j1) == old_list[j1]);
                                    assert(ctx_at(before.source_file_to_contexts, i1, j1) == old_list[j1]);
                                    assert(valid_pos(before.source_file_to_contexts, i1, j1));
                                } else {
                                    assert(ctx_at(self.source_file_to_contexts, i1, j1) == c);
                                    assert(fk@ == enc_path(c.source_file@));
                                }
                            }
                            assert forall|i1: int, j1: int, i2: int, j2: int|
                                valid_pos(self.source_file_to_contexts, i1, j1) && valid_pos(self.source_file_to_contexts, i2, j2) && (i1 != i2 || j1 != j2)
                                implies #[trigger] ctx_at(self.source_file_to_contexts, i1, j1).key.0@ != #[trigger] ctx_at(self.source_file_to_contexts, i2, j2).key.0@ by {
                                if i1 != i { assert(m.vals@[i1] == bm.vals@[i1]); assert(ctx_at(self.source_file_to_contexts, i1, j1) == ctx_at(before.source_file_to_contexts, i1, j1)); }
                                if i2 != i { assert(m.vals@[i2] == bm.vals@[i2]); assert(ctx_at(self.source_file_to_contexts, i2, j2) == ctx_at(before.source_file_to_contexts, i2, j2)); }
                                if i1 == i && j1 < old_list.len() { assert(ctx_at(self.source_file_to_contexts, i1, j1) == old_list[j1]); assert(ctx_at(before.source_file_to_contexts, i1, j1) == old_list[j1]); assert(valid_pos(before.source_file_to_contexts, i1, j1)); }
                                if i2 == i && j2 < old_list.len() { assert(ctx_at(self.source_file_to_contexts, i2, j2) == old_list[j2]); assert(ctx_at(before.source_file_to_contexts, i2, j2) == old_list[j2]); assert(valid_pos(before.source_file_to_contexts, i2, j2)); }
                                if i1 == i && j1 == old_list.len() {
                                    assert(!(valid_pos(before.source_file_to_contexts, i2, j2) && ctx_at(before.source_file_to_contexts, i2, j2).key.0@ == k));
                                } else if i2 == i && j2 == old_list.len() {
                                    assert(!(valid_pos(before.source_file_to_contexts, i1, j1) && ctx_at(before.source_file_to_contexts, i1, j1).key.0@ == k));
                                }
                            }
                            assert(ctx_at(self.source_file_to_contexts, i as int, old_list.len() as int) == c);
                            assert(has_key(*self, k));
                            assert(m.key_view()[i as int] == enc_path(c.source_file@));
                        }
                    },
                    Err(_) => {
                        let file = ctx.source_file.clone();
                        let mut list = Vec::new();
                        list.push(ctx);
                        let pos = self.source_file_to_contexts.insert(fk, (file, list));
                        proof {
                            let m = self.source_file_to_contexts;
                            let bm = before.source_file_to_contexts;
                            assert(m.vals@ == bm.vals@.insert(pos as int, (file, list)));
                            assert(m.key_view() == bm.key_view().insert(pos as int, fk@));
                            assert forall|i1: int| 0 <= i1 < m.vals@.len() implies
                                #[trigger] m.key_view()[i1] == enc_path(m.vals@[i1].0@) by {
                                if i1 < pos { assert(m.vals@[i1] == bm.vals@[i1]); assert(m.key_view()[i1] == bm.key_view()[i1]); }
                                else if i1 > pos { assert(m.vals@[i1] == bm.vals@[i1 - 1]); assert(m.key_view()[i1] == bm.key_view()[i1 - 1]); }
                            }
                            assert forall|i1: int, j1: int| valid_pos(self.source_file_to_contexts, i1, j1) implies
                                (if i1 == pos { j1 == 0 && ctx_at(self.source_file_to_contexts, i1, j1) == c } else if i1 < pos { ctx_at(self.source_file_to_contexts, i1, j1) == ctx_at(before.source_file_to_contexts, i1, j1) && valid_pos(before.source_file_to_contexts, i1, j1) } else { ctx_at(self.source_file_to_contexts, i1, j1) == ctx_at(before.source_file_to_contexts, i1 - 1, j1) && valid_pos(before.source_file_to_contexts, i1 - 1, j1) }) by {
                                if i1 < pos { assert(m.vals@[i1] == bm.vals@[i1]); }
                                else if i1 > pos { assert(m.vals@[i1] == bm.vals@[i1 - 1]); }
                            }
                            assert forall|i1: int, j1: int| valid_pos(self.source_file_to_contexts, i1, j1) implies
                                enc_path(#[trigger] ctx_at(self.source_file_to_contexts, i1, j1).source_file@) == m.key_view()[i1] by {
                                if i1 < pos { assert(m.vals@[i1] == bm.vals@[i1]); assert(m.key_view()[i1] == bm.key_view()[i1]); }
                                else if i1 > pos { assert(m.vals@[i1] == bm.vals@[i1 - 1]); assert(m.key_view()[i1] == bm.key_view()[i1 - 1]); }
                            }
                            assert forall|i1: int, j1: int, i2: int, j2: int|
                                valid_pos(self.source_file_to_contexts, i1, j1) && valid_pos(self.source_file_to_contexts, i2, j2) && (i1 != i2 || j1 != j2)
                                implies #[trigger] ctx_at(self.source_file_to_contexts, i1, j1).key.0@ != #[trigger] ctx_at(self.source_file_to_contexts, i2, j2).key.0@ by {
                                let a1 = if i1 < pos { i1 } else { i1 - 1 };
                                let a2 = if i2 < pos { i2 } else { i2 - 1 };
                                if i1 < pos { assert(m.vals@[i1] == bm.vals@[i1]); } else if i1 > pos { assert(m.vals@[i1] == bm.vals@[i1 - 1]); }
                                if i2 < pos { assert(m.vals@[i2] == bm.vals@[i2]); } else if i2 > pos { assert(m.vals@[i2] == bm.vals@[i2 - 1]); }
                                if i1 == pos {
                                    assert(!(valid_pos(before.source_file_to_contexts, a2, j2) && ctx_at(before.source_file_to_contexts, a2, j2).key.0@ == k));
                                } else if i2 == pos {
                                    assert(!(valid_pos(before.source_file_to_contexts, a1, j1) && ctx_at(before.source_file_to_contexts, a1, j1).key.0@ == k));
                                } else {
                                    assert(ctx_at(self.source_file_to_contexts, i1, j1) == ctx_at(before.source_file_to_contexts, a1, j1));
                                    assert(ctx_at(self.source_file_to_contexts, i2, j2) == ctx_at(before.source_file_to_contexts, a2, j2));
                                }
                            }
                            assert(ctx_at(self.source_file_to_contexts, pos as int, 0) == c);
                            assert(has_key(*self, k));
                            assert(m.vals@[pos as int].1@.last() == c);
                        }
                    },
                }
            },
        }
    }

    /// The contexts of a source file (several when several entries compile it),
    /// looked up by path components.
    pub fn contexts_for_source(&self, source_file: &str) -> (r: &[CompilationContext])
        requires
            self.wf(),
        ensures
            r@ == list_at(self.source_file_to_contexts, enc_path(source_file@)),
    {
        let k = path_key(source_file);
        entry_list(&self.source_file_to_contexts, k.as_slice())
    }

    /// The first context (in source-file order) with the given key.
    pub fn context_by_key(&self, key: &CompilationKey) -> (r: Option<&CompilationContext>)
        requires
            self.wf(),
        ensures
            r matches Some(c) ==> c.key.0@ == key.0@ && exists|i: int, j: int| valid_pos(self.source_file_to_contexts, i, j) && #[trigger] ctx_at(self.source_file_to_contexts, i, j) == *c,
            r is None ==> !has_key(*self, key.0@),
    {
        let n = self.source_file_to_contexts.len();
        for i in 0..n
            invariant
                n == self.source_file_to_contexts.size(),
                self.wf(),
                forall|i1: int, j1: int| valid_pos(self.source_file_to_contexts, i1, j1) && i1 < i ==> #[trigger] ctx_at(self.source_file_to_contexts, i1, j1).key.0@ != key.0@,
        {
            let e = self.source_file_to_contexts.value_at(i);
            let m = e.1.len();
            for j in 0..m
                invariant
                    n == self.source_file_to_contexts.size(),
                    i < n,
                    *e == self.source_file_to_contexts.vals@[i as int],
                    m == e.1@.len(),
                    self.wf(),
                    forall|i1: int, j1: int| valid_pos(self.source_file_to_contexts, i1, j1) && i1 < i ==> #[trigger] ctx_at(self.source_file_to_contexts, i1, j1).key.0@ != key.0@,
                    forall|j1: int| 0 <= j1 < j ==> #[trigger] ctx_at(self.source_file_to_contexts, i as int, j1).key.0@ != key.0@,
            {
                if e.1[j].key.0 == key.0 {
                    assert(ctx_at(self.source_file_to_contexts, i as int, j as int) == e.1@[j as int]);
                    return Some(&e.1[j]);
                }
            }
        }
        None
    }

    /// The source files held, in path order.
    pub fn all_source_files(&self) -> (r: Vec<String>)
        ensures
            r@.len() == self.source_file_to_contexts.vals@.len(),
            forall|i: int| 0 <= i < r@.len() ==> #[trigger] r@[i] == self.source_file_to_contexts.vals@[i].0,
    {
        let n = self.source_file_to_contexts.vals.len();
        let mut out: Vec<String> = Vec::new();
        for i in 0..n
            invariant
                n == self.source_file_to_contexts.vals@.len(),
                out@.len() == i,
                forall|k: int| 0 <= k < i ==> #[trigger] out@[k] == self.source_file_to_contexts.vals@[k].0,
        {
            out.push(self.source_file_to_contexts.vals[i].0.clone());
        }
        out
    }
}

} // verus!
