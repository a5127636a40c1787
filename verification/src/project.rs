//! The project under analysis: its source root, its compilation database, and
//! which files count as C/C++ sources.
use vstd::prelude::*;
use crate::compile_db::CompilationDb;
use crate::diagnostic::InputError;
use crate::order::{path_key, enc_path, lex_lt, strictly_sorted, OrdMap};
use crate::paths::{extension, extension_spec, file_name, file_name_spec, strip_prefix, strip_prefix_spec};
use crate::text::chars_of;

verus! {

broadcast use vstd::string::group_string_axioms;

/// The analysed project.
#[derive(Debug)]
pub struct ProjectContext {
    /// Normalized absolute source root
    pub source_root: String,
    /// The root as the user gave it, for display
    pub display_root: String,
    /// The loaded compilation database
    pub compilation_db: CompilationDb,
}

/// How a path is shown: relative to the source root when it lies under it.
pub open spec fn display_path_spec(root: Seq<char>, path: Seq<char>) -> Seq<char> {
    match strip_prefix_spec(path, root) {
        Some(rel) => rel,
        None => path,
    }
}

/// Whether `path` lies under `base`, component by component (`Path::starts_with`).
pub open spec fn under(path: Seq<char>, base: Seq<char>) -> bool {
    strip_prefix_spec(path, base) is Some
}

impl ProjectContext {
    /// The path shown to the user: relative to the source root when under it.
    pub fn display_path(&self, path: &str) -> (r: String)
        ensures
            r@ == display_path_spec(self.source_root@, path@),
    {
        match strip_prefix(path, self.source_root.as_str()) {
            Some(rel) => rel,
            None => path.to_string(),
        }
    }
}

/// The code of a character with ASCII upper case letters lowered.
pub open spec fn lower_code(c: char) -> u32 {
    if 'A' <= c && c <= 'Z' { (c as u32 + 32) as u32 } else { c as u32 }
}

/// Whether `s`, with ASCII letters lowered, is `w`.
pub open spec fn eq_lower(s: Seq<char>, w: Seq<char>) -> bool {
    s.len() == w.len() && forall|i: int| 0 <= i < s.len() ==> lower_code(#[trigger] s[i]) == w[i] as u32
}

fn eq_lower_exec(s: &[char], w: &str) -> (r: bool)
    ensures
        r == eq_lower(s@, w@),
{
    let wc = chars_of(w);
    if s.len() != wc.len() {
        return false;
    }
    let n = s.len();
    for i in 0..n
        invariant
            n == s@.len() == wc@.len(),
            wc@ == w@,
            forall|j: int| 0 <= j < i ==> lower_code(#[trigger] s@[j]) == wc@[j] as u32,
    {
        let c = s[i];
        let code: u32 = if 'A' <= c && c <= 'Z' { (c as u32) + 32 } else { c as u32 };
        if code != (wc[i] as u32) {
            return false;
        }
    }
    true
}

/// Whether an extension is `c` or `h`, ignoring ASCII case.
pub fn is_c_or_h(e: &str) -> (r: bool)
    ensures
        r == (eq_lower(e@, "c"@) || eq_lower(e@, "h"@)),
{
    let cs = chars_of(e);
    eq_lower_exec(&cs, "c") || eq_lower_exec(&cs, "h")
}

/// The directories the source walk skips: tool and build caches.
pub open spec fn ignored_name(n: Seq<char>) -> bool {
    n == ".git"@ || n == ".hg"@ || n == ".svn"@ || n == ".cache"@ || n == "node_modules"@ || n == "target"@
}

/// Whether a directory is skipped by the source walk: its name is one of
/// `.git`, `.hg`, `.svn`, `.cache`, `node_modules`, `target`.
pub fn is_ignored_directory(path: &str) -> (r: bool)
    ensures
        r == (file_name_spec(path@) matches Some(n) && ignored_name(n)),
{
    match file_name(path) {
        None => false,
        Some(n) => {
            let s = n.as_str();
            proof {
                reveal_strlit(".git");
                reveal_strlit(".hg");
                reveal_strlit(".svn");
                reveal_strlit(".cache");
                reveal_strlit("node_modules");
                reveal_strlit("target");
            }
            crate::text::str_eq(s, ".git") || crate::text::str_eq(s, ".hg") || crate::text::str_eq(s, ".svn")
                || crate::text::str_eq(s, ".cache") || crate::text::str_eq(s, "node_modules")
                || crate::text::str_eq(s, "target")
        },
    }
}

/// The extensions of C and C++ sources and headers, in lower case.
pub open spec fn c_cpp_ext(e: Seq<char>) -> bool {
    eq_lower(e, "c"@) || eq_lower(e, "cpp"@) || eq_lower(e, "cxx"@) || eq_lower(e, "cc"@) || eq_lower(e, "c++"@)
        || eq_lower(e, "h"@) || eq_lower(e, "hpp"@) || eq_lower(e, "hxx"@) || eq_lower(e, "hh"@)
        || eq_lower(e, "h++"@) || eq_lower(e, "inl"@) || eq_lower(e, "tpp"@)
}

/// Whether a file is a C/C++ source or header, by its extension, ignoring ASCII case.
pub fn is_c_cpp_file(path: &str) -> (r: bool)
    ensures
        r == (extension_spec(path@) matches Some(e) && c_cpp_ext(e)),
{
    match extension(path) {
        None => false,
        Some(e) => {
            let cs = chars_of(e.as_str());
            eq_lower_exec(&cs, "c") || eq_lower_exec(&cs, "cpp") || eq_lower_exec(&cs, "cxx")
                || eq_lower_exec(&cs, "cc") || eq_lower_exec(&cs, "c++") || eq_lower_exec(&cs, "h")
                || eq_lower_exec(&cs, "hpp") || eq_lower_exec(&cs, "hxx") || eq_lower_exec(&cs, "hh")
                || eq_lower_exec(&cs, "h++") || eq_lower_exec(&cs, "inl") || eq_lower_exec(&cs, "tpp")
        },
    }
}

/// The set of project source files: the given files that lie under the source
/// root, each once, in path order.
pub fn source_file_set(root: &str, files: Vec<String>) -> (r: Vec<String>)
    ensures
        strictly_sorted(r@.map_values(|f: String| enc_path(f@))),
        forall|i: int| 0 <= i < r@.len() ==> under(#[trigger] r@[i]@, root@)
            && exists|j: int| 0 <= j < files@.len() && files@[j]@ == r@[i]@,
        forall|j: int| 0 <= j < files@.len() && under(#[trigger] files@[j]@, root@) ==>
            exists|i: int| 0 <= i < r@.len() && enc_path(r@[i]@) == enc_path(files@[j]@),
{
    let mut set: OrdMap<String> = OrdMap::new();
    let n = files.len();
    let mut j: usize = 0;
    while j < n
        invariant
            n == files@.len(),
            j <= n,
            set.wf(),
            forall|i: int| 0 <= i < set.vals@.len() ==> #[trigger] set.key_view()[i] == enc_path(set.vals@[i]@),
            forall|i: int| 0 <= i < set.vals@.len() ==> under(#[trigger] set.vals@[i]@, root@),
            forall|i: int| 0 <= i < set.vals@.len() ==> exists|k: int| 0 <= k < files@.len() && files@[k]@ == #[trigger] set.vals@[i]@,
            forall|k: int| 0 <= k < j && under(#[trigger] files@[k]@, root@) ==> set.contains(enc_path(files@[k]@)),
        decreases n - j,
    {
        let f = &files[j];
        if strip_prefix(f.as_str(), root).is_some() {
            let key = path_key(f.as_str());
            let ghost before = set;
            let r = set.insert_if_absent(key, f.clone());
            proof {
                match r {
                    Some(p) => {
                        assert forall|i: int| 0 <= i < set.vals@.len() implies #[trigger] set.key_view()[i] == enc_path(set.vals@[i]@) by {
                            if i < p {
                                assert(set.vals@[i] == before.vals@[i]);
                                assert(set.key_view()[i] == before.key_view()[i]);
                            } else if i > p {
                                assert(set.vals@[i] == before.vals@[i - 1]);
                                assert(set.key_view()[i] == before.key_view()[i - 1]);
                            }
                        }
                        assert forall|i: int| 0 <= i < set.vals@.len() implies under(#[trigger] set.vals@[i]@, root@) by {
                            if i < p {
                                assert(set.vals@[i] == before.vals@[i]);
                            } else if i > p {
                                assert(set.vals@[i] == before.vals@[i - 1]);
                            }
                        }
                        assert forall|i: int| 0 <= i < set.vals@.len() implies exists|k: int| 0 <= k < files@.len() && files@[k]@ == #[trigger] set.vals@[i]@ by {
                            if i < p {
                                assert(set.vals@[i] == before.vals@[i]);
                                let k = choose|k: int| 0 <= k < files@.len() && files@[k]@ == before.vals@[i]@;
                                assert(files@[k]@ == set.vals@[i]@);
                            } else if i > p {
                                assert(set.vals@[i] == before.vals@[i - 1]);
                                let k = choose|k: int| 0 <= k < files@.len() && files@[k]@ == before.vals@[i - 1]@;
                                assert(files@[k]@ == set.vals@[i]@);
                            } else {
                                assert(files@[j as int]@ == set.vals@[i]@);
                            }
                        }
                        assert forall|k: int| 0 <= k < j + 1 && under(#[trigger] files@[k]@, root@) implies set.contains(enc_path(files@[k]@)) by {
                            if k < j {
                                let w = choose|w: int| 0 <= w < before.key_view().len() && before.key_view()[w] == enc_path(files@[k]@);
                                if w < p {
                                    assert(set.key_view()[w] == before.key_view()[w]);
                                } else {
                                    assert(set.key_view()[w + 1] == before.key_view()[w]);
                                }
                            } else {
                                assert(set.key_view()[p as int] == enc_path(files@[k]@));
                            }
                        }
                    },
                    None => {},
                }
            }
        }
        j = j + 1;
    }
    let ghost sv = set;
    let out = set.vals;
    proof {
        assert(out@.map_values(|f: String| enc_path(f@)) =~= sv.key_view());
        assert forall|k: int| 0 <= k < files@.len() && under(#[trigger] files@[k]@, root@) implies
            exists|i: int| 0 <= i < out@.len() && enc_path(out@[i]@) == enc_path(files@[k]@) by {
            let w = choose|w: int| 0 <= w < sv.key_view().len() && sv.key_view()[w] == enc_path(files@[k]@);
            assert(enc_path(out@[w]@) == enc_path(files@[k]@));
        }
    }
    out
}

/// What inspecting the source root gave.
#[derive(Debug)]
pub enum RootState {
    /// Nothing exists at the path
    Missing,
    /// The path exists but is not a directory
    NotDirectory,
    /// The directory could not be normalized (the reason)
    Unresolvable(String),
    /// The normalized absolute directory
    Resolved(String),
}

impl ProjectContext {
    /// A project from its root as given, what inspecting the root gave, and its
    /// loaded compilation database: a missing root, a root that is not a
    /// directory or one that cannot be normalized is an input error.
    pub fn open(display_root: String, root: RootState, compilation_db: CompilationDb) -> (r: Result<ProjectContext, InputError>)
        ensures
            root is Missing ==> (r matches Err(InputError::InvalidSourceRoot { path, reason })
                && path@ == display_root@ && reason@ == "지정된 소스 루트 디렉토리가 존재하지 않습니다."@),
            root is NotDirectory ==> (r matches Err(InputError::InvalidSourceRoot { path, reason })
                && path@ == display_root@ && reason@ == "지정된 소스 루트가 디렉토리가 아닙니다."@),
            root matches RootState::Unresolvable(e) ==> (r matches Err(InputError::InvalidSourceRoot { path, reason })
                && path@ == display_root@ && reason@ == "소스 루트 경로 정규화 실패: "@ + e@),
            root matches RootState::Resolved(d) ==> (r matches Ok(p) && p.source_root == d
                && p.display_root == display_root && p.compilation_db == compilation_db),
    {
        match root {
            RootState::Missing => Err(InputError::InvalidSourceRoot {
                path: display_root,
                reason: "지정된 소스 루트 디렉토리가 존재하지 않습니다.".to_string(),
            }),
            RootState::NotDirectory => Err(InputError::InvalidSourceRoot {
                path: display_root,
                reason: "지정된 소스 루트가 디렉토리가 아닙니다.".to_string(),
            }),
            RootState::Unresolvable(e) => {
                let mut reason = "소스 루트 경로 정규화 실패: ".to_string();
                crate::text::push_str(&mut reason, e.as_str());
                Err(InputError::InvalidSourceRoot { path: display_root, reason })
            },
            RootState::Resolved(d) => Ok(ProjectContext { source_root: d, display_root, compilation_db }),
        }
    }
}

} // verus!
