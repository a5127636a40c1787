//! Paths as the library reads them: `/`-separated strings, split into components
//! the way `std::path::Path::components` splits them on Unix.
use vstd::prelude::*;
use crate::text::{push_char, push_str, string_of_range, chars_of};

verus! {

broadcast use vstd::string::group_string_axioms;

/// The named (or `..`) components of a path remainder: the `/`-separated parts
/// that are neither empty nor `.`.
pub open spec fn parts_spec(s: Seq<char>) -> Seq<Seq<char>>
    decreases s.len(),
{
    if s.len() == 0 {
        Seq::empty()
    } else {
        let i = crate::order::first_slash(s);
        let p = s.subrange(0, i as int);
        let head: Seq<Seq<char>> = if p.len() == 0 || p == seq!['.'] { Seq::empty() } else { seq![p] };
        if i < s.len() {
            head + parts_spec(s.subrange(i as int + 1, s.len() as int))
        } else {
            head
        }
    }
}

/// Whether the path starts at the root directory.
pub open spec fn has_root(s: Seq<char>) -> bool {
    s.len() > 0 && s[0] == '/'
}

/// Whether the path starts with a `.` component (`./x` or `.`).
pub open spec fn has_cur_dir(s: Seq<char>) -> bool {
    !has_root(s) && s.len() > 0 && s[0] == '.' && (s.len() == 1 || s[1] == '/')
}

/// The named and `..` components of a path, in order.
pub open spec fn path_parts(s: Seq<char>) -> Seq<Seq<char>> {
    if has_root(s) || has_cur_dir(s) {
        parts_spec(s.drop_first())
    } else {
        parts_spec(s)
    }
}

/// A path split into its components.
pub struct PathComponents {
    pub root: bool,
    pub cur_dir: bool,
    pub parts: Vec<String>,
}

impl PathComponents {
    pub open spec fn parts_view(&self) -> Seq<Seq<char>> {
        self.parts@.map_values(|p: String| p@)
    }
}

proof fn lemma_first_slash_facts(s: Seq<char>, m: int)
    requires
        0 <= m <= s.len(),
        forall|k: int| 0 <= k < m ==> s[k] != '/',
        m == s.len() || s[m] == '/',
    ensures
        crate::order::first_slash(s) == m,
    decreases m,
{
    if m > 0 {
        lemma_first_slash_facts(s.drop_first(), m - 1);
    }
}

/// Splits a path into its components (`Path::components`).
pub fn components(path: &str) -> (r: PathComponents)
    ensures
        r.root == has_root(path@),
        r.cur_dir == has_cur_dir(path@),
        r.parts_view() == path_parts(path@),
{
    let cs = chars_of(path);
    let n = cs.len();
    let root = n > 0 && cs[0] == '/';
    let cur_dir = !root && n > 0 && cs[0] == '.' && (n == 1 || cs[1] == '/');
    let mut i: usize = if root || cur_dir { 1 } else { 0 };
    let ghost start = i as int;
    let mut parts: Vec<String> = Vec::new();
    while i < n
        invariant
            cs@ == path@,
            n == cs@.len(),
            start <= i <= n,
            0 <= start <= 1,
            start == (if root || cur_dir { 1int } else { 0 }),
            parts@.map_values(|p: String| p@) + parts_spec(cs@.subrange(i as int, n as int))
                == parts_spec(cs@.subrange(start, n as int)),
        decreases n - i,
    {
        let mut j = i;
        while j < n && cs[j] != '/'
            invariant
                i <= j <= n == cs@.len(),
                forall|k: int| i <= k < j ==> cs@[k] != '/',
            decreases n - j,
        {
            j = j + 1;
        }
        let ghost rest = cs@.subrange(i as int, n as int);
        proof {
            lemma_first_slash_facts(rest, j - i);
            assert(rest.subrange(0, j - i) =~= cs@.subrange(i as int, j as int));
            if j < n {
                assert(rest.subrange(j - i + 1, rest.len() as int) =~= cs@.subrange(j + 1, n as int));
            }
        }
        let ghost before = parts@.map_values(|p: String| p@);
        let is_dot = j - i == 1 && cs[i] == '.';
        proof {
            let p = cs@.subrange(i as int, j as int);
            if j - i == 1 {
                assert(p[0] == cs@[i as int]);
                if cs@[i as int] == '.' { assert(p =~= seq!['.']); } else { assert(p != seq!['.']); }
            } else {
                assert(p.len() != 1 ==> p != seq!['.']);
            }
        }
        if j > i && !is_dot {
            let part = string_of_range(&cs, i, j);
            parts.push(part);
            proof {
                assert(parts@.map_values(|p: String| p@) =~= before.push(cs@.subrange(i as int, j as int)));
            }
        } else {
            assert(parts@.map_values(|p: String| p@) == before);
        }
        if j < n {
            i = j + 1;
        } else {
            assert(rest =~= cs@.subrange(i as int, j as int));
            i = n;
        }
        proof {
            assert(cs@.subrange(n as int, n as int) =~= Seq::<char>::empty());
            let head: Seq<Seq<char>> = if j == i || is_dot { Seq::empty() } else { seq![cs@.subrange(i as int, j as int)] };
            assert(parts@.map_values(|p: String| p@) + parts_spec(cs@.subrange(i as int, n as int))
                =~= parts_spec(cs@.subrange(start, n as int))) by {
                assert(parts_spec(cs@.subrange(n as int, n as int)) =~= Seq::<Seq<char>>::empty());
            }
        }
    }
    proof {
        assert(parts_spec(cs@.subrange(n as int, n as int)) =~= Seq::<Seq<char>>::empty());
        assert(parts@.map_values(|p: String| p@) =~= parts_spec(cs@.subrange(start, n as int)));
        if root || cur_dir {
            assert(cs@.subrange(1, n as int) =~= cs@.drop_first());
        } else {
            assert(cs@.subrange(0, n as int) =~= cs@);
        }
    }
    PathComponents { root, cur_dir, parts }
}


/// Whether the path is absolute (starts at the root directory).
pub fn is_absolute(path: &str) -> (r: bool)
    ensures
        r == has_root(path@),
{
    let cs = chars_of(path);
    cs.len() > 0 && cs[0] == '/'
}

/// `Path::file_name`: the last component when it is a named one.
pub open spec fn file_name_spec(s: Seq<char>) -> Option<Seq<char>> {
    let parts = path_parts(s);
    if parts.len() > 0 && parts.last() != seq!['.', '.'] {
        Some(parts.last())
    } else {
        None
    }
}

/// `Path::file_name`.
pub fn file_name(path: &str) -> (r: Option<String>)
    ensures
        r matches Some(n) ==> file_name_spec(path@) == Some(n@),
        r is None ==> file_name_spec(path@) is None,
{
    let c = components(path);
    let k = c.parts.len();
    if k == 0 {
        return None;
    }
    let last = c.parts[k - 1].clone();
    assert(c.parts_view().last() == last@);
    let lc = chars_of(last.as_str());
    if lc.len() == 2 && lc[0] == '.' && lc[1] == '.' {
        assert(last@ =~= seq!['.', '.']);
        None
    } else {
        assert(last@ != seq!['.', '.']) by {
            if last@.len() == 2 {
                assert(last@[0] == lc@[0]);
            }
        }
        Some(last)
    }
}

/// The index of the last `.` in `s`, if any.
pub open spec fn last_dot(s: Seq<char>) -> Option<int> {
    crate::text::last_occurrence(s, seq!['.'])
}

/// `Path::extension` of a file name: the part after the last `.`, unless the name
/// is `..`, holds no `.`, or its only `.` comes first.
pub open spec fn extension_of_name(n: Seq<char>) -> Option<Seq<char>> {
    if n == seq!['.', '.'] {
        None
    } else {
        match last_dot(n) {
            Some(i) => if i == 0 { None } else { Some(n.subrange(i + 1, n.len() as int)) },
            None => None,
        }
    }
}

/// `Path::extension`.
pub open spec fn extension_spec(s: Seq<char>) -> Option<Seq<char>> {
    match file_name_spec(s) {
        Some(n) => extension_of_name(n),
        None => None,
    }
}

/// `Path::extension`.
pub fn extension(path: &str) -> (r: Option<String>)
    ensures
        r matches Some(e) ==> extension_spec(path@) == Some(e@),
        r is None ==> extension_spec(path@) is None,
{
    match file_name(path) {
        None => None,
        Some(name) => {
            let cs = chars_of(name.as_str());
            if cs.len() == 2 && cs[0] == '.' && cs[1] == '.' {
                assert(name@ =~= seq!['.', '.']);
                return None;
            }
            assert(name@ != seq!['.', '.']) by {
                if name@.len() == 2 {
                    assert(name@[0] == cs@[0]);
                }
            }
            let dot = vec!['.'];
            assert(dot@ =~= seq!['.']);
            match crate::text::rfind(&cs, &dot) {
                None => None,
                Some(i) => {
                    if i == 0 {
                        None
                    } else {
                        Some(string_of_range(&cs, i + 1, cs.len()))
                    }
                },
            }
        },
    }
}

/// `PathBuf::push` of a relative or absolute path onto `base`.
pub open spec fn join_spec(base: Seq<char>, rel: Seq<char>) -> Seq<char> {
    if has_root(rel) || base.len() == 0 {
        rel
    } else if base.last() == '/' {
        base + rel
    } else {
        base.push('/') + rel
    }
}

/// `Path::join`.
pub fn join(base: &str, rel: &str) -> (r: String)
    ensures
        r@ == join_spec(base@, rel@),
{
    let bc = chars_of(base);
    if is_absolute(rel) || bc.len() == 0 {
        return rel.to_string();
    }
    let mut out = base.to_string();
    if bc[bc.len() - 1] != '/' {
        push_char(&mut out, '/');
    }
    push_str(&mut out, rel);
    out
}

/// The directory part of a file path: everything before its last `/` (the root
/// itself for a file directly under it, empty when there is no `/`).
pub open spec fn dir_of_spec(s: Seq<char>) -> Seq<char> {
    match crate::text::last_occurrence(s, seq!['/']) {
        Some(i) => if i == 0 { seq!['/'] } else { s.subrange(0, i) },
        None => Seq::empty(),
    }
}

/// The directory part of a file path (the `parent` of a normalized file path).
pub fn dir_of(path: &str) -> (r: String)
    ensures
        r@ == dir_of_spec(path@),
{
    let cs = chars_of(path);
    let slash = vec!['/'];
    assert(slash@ =~= seq!['/']);
    match crate::text::rfind(&cs, &slash) {
        None => String::new(),
        Some(i) => {
            if i == 0 {
                let r = "/".to_string();
                proof { reveal_strlit("/"); }
                assert(r@ =~= seq!['/']);
                r
            } else {
                string_of_range(&cs, 0, i)
            }
        },
    }
}

/// The components of a path as strings: `/` for the root directory, `.` for a
/// leading current directory, then the named and `..` components.
pub open spec fn comps_spec(s: Seq<char>) -> Seq<Seq<char>> {
    let lead: Seq<Seq<char>> = if has_root(s) {
        seq![seq!['/']]
    } else if has_cur_dir(s) {
        seq![seq!['.']]
    } else {
        Seq::empty()
    };
    lead + path_parts(s)
}

/// A path built by pushing each component in turn onto an empty path.
pub open spec fn build_path(cs: Seq<Seq<char>>) -> Seq<char>
    decreases cs.len(),
{
    if cs.len() == 0 {
        Seq::empty()
    } else {
        join_spec(build_path(cs.drop_last()), cs.last())
    }
}

/// `Path::strip_prefix`: the remaining components when `base`'s components begin
/// `path`'s.
pub open spec fn strip_prefix_spec(path: Seq<char>, base: Seq<char>) -> Option<Seq<char>> {
    let pc = comps_spec(path);
    let bc = comps_spec(base);
    if bc.len() <= pc.len() && pc.subrange(0, bc.len() as int) == bc {
        Some(build_path(pc.subrange(bc.len() as int, pc.len() as int)))
    } else {
        None
    }
}

fn comps_vec(path: &str) -> (r: Vec<String>)
    ensures
        r@.map_values(|p: String| p@) == comps_spec(path@),
{
    let c = components(path);
    let mut out: Vec<String> = Vec::new();
    if c.root {
        let r = "/".to_string();
        proof { reveal_strlit("/"); }
        assert(r@ =~= seq!['/']);
        out.push(r);
    } else if c.cur_dir {
        let r = ".".to_string();
        proof { reveal_strlit("."); }
        assert(r@ =~= seq!['.']);
        out.push(r);
    }
    let ghost lead = out@.map_values(|p: String| p@);
    let k = c.parts.len();
    for i in 0..k
        invariant
            k == c.parts@.len(),
            out@.map_values(|p: String| p@) == lead + c.parts_view().take(i as int),
    {
        let ghost prev = out@;
        let x = c.parts[i].clone();
        out.push(x);
        assert(out@ == prev.push(x));
        assert(c.parts_view().take(i + 1) =~= c.parts_view().take(i as int).push(c.parts@[i as int]@));
        assert(out@.map_values(|p: String| p@) =~= prev.map_values(|p: String| p@).push(x@));
        assert(out@.map_values(|p: String| p@) =~= lead + c.parts_view().take(i + 1));
    }
    assert(c.parts_view().take(k as int) =~= c.parts_view());
    assert(lead + c.parts_view() =~= comps_spec(path@));
    out
}

/// `Path::strip_prefix`.
pub fn strip_prefix(path: &str, base: &str) -> (r: Option<String>)
    ensures
        r matches Some(x) ==> strip_prefix_spec(path@, base@) == Some(x@),
        r is None ==> strip_prefix_spec(path@, base@) is None,
{
    let pc = comps_vec(path);
    let bc = comps_vec(base);
    let ghost pv = pc@.map_values(|p: String| p@);
    let ghost bv = bc@.map_values(|p: String| p@);
    assert(pv.len() == pc@.len() && bv.len() == bc@.len());
    if bc.len() > pc.len() {
        return None;
    }
    let m = bc.len();
    for i in 0..m
        invariant
            m == bc@.len() <= pc@.len(),
            pv == pc@.map_values(|p: String| p@),
            pv == comps_spec(path@),
            bv == comps_spec(base@),
            bv == bc@.map_values(|p: String| p@),
            forall|j: int| 0 <= j < i ==> pv[j] == bv[j],
    {
        if !(pc[i] == bc[i]) {
            assert(pv[i as int] == pc@[i as int]@);
            assert(bv[i as int] == bc@[i as int]@);
            assert(pv.subrange(0, m as int)[i as int] != bv[i as int]);
            return None;
        }
    }
    assert(pv.subrange(0, m as int) =~= bv);
    let mut out = String::new();
    let n = pc.len();
    let mut i = m;
    assert(pv.subrange(m as int, m as int) =~= Seq::<Seq<char>>::empty());
    while i < n
        invariant
            m <= i <= n == pc@.len(),
            pv == pc@.map_values(|p: String| p@),
            out@ == build_path(pv.subrange(m as int, i as int)),
        decreases n - i,
    {
        let next = join(out.as_str(), pc[i].as_str());
        assert(pv.subrange(m as int, i + 1).drop_last() =~= pv.subrange(m as int, i as int));
        out = next;
        i = i + 1;
    }
    Some(out)
}

} // verus!
