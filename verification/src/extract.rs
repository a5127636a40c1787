//! Syntactic extraction: walking the syntax tree of one file and recording its
//! candidate symbols, candidate calls and include relations in the discovery index.
use vstd::prelude::*;
use crate::discovery::{DiscoveryIndex, NameKey, SourceFile, name_code, name_key_code, opt_view, valid_id};
use crate::keys::{enc_range, push_enc_range};
use crate::model::{CandidateCallId, CandidateCallKind, CandidateCallSite, CandidateSymbol, CandidateSymbolId,
    CandidateSymbolKind, Language, LineColumn, SourceLocation, SourceRange, clone_opt_string};
use crate::order::{OrdMap, append_to_entry, enc_path, lemma_insert_effect, list_at, path_key, push_enc_str};
use crate::paths::{components, dir_of, join};
use crate::syntax::{SyntaxNode, child_by_field, node_chars, node_text};
use crate::text::{chars_of, push_str, rfind, str_eq, string_of_range};

verus! {

broadcast use vstd::string::group_string_axioms;

/// Deduplication maps of one indexing pass.
pub struct BuildKeys {
    /// Symbol identifiers by declaration key
    pub symbol_keys: OrdMap<CandidateSymbolId>,
    /// Call identifiers by call key
    pub call_keys: OrdMap<CandidateCallId>,
}

impl BuildKeys {
    /// Empty maps.
    pub fn new() -> (r: Self)
        ensures
            r.symbol_keys.wf(),
            r.call_keys.wf(),
            r.symbol_keys.size() == 0,
    {
        BuildKeys { symbol_keys: OrdMap::new(), call_keys: OrdMap::new() }
    }
}

/// The index is consistent and every remembered symbol identifier is stored.
pub open spec fn builder_wf(idx: DiscoveryIndex, keys: BuildKeys) -> bool {
    &&& idx.wf()
    &&& keys.symbol_keys.wf()
    &&& keys.call_keys.wf()
    &&& forall|i: int| 0 <= i < keys.symbol_keys.size() ==> valid_id((#[trigger] keys.symbol_keys.vals@[i]).0, idx.symbols@.len())
}

/// What the walk of one file reads: the file, its bytes and language, and what
/// include resolution needs.
pub struct FileCtx<'s> {
    /// Normalized path of the file
    pub file_path: String,
    /// Its bytes
    pub source: &'s [u8],
    /// Its language
    pub language: Language,
    /// Normalized source root
    pub source_root: String,
    /// The project's files
    pub catalog: &'s [SourceFile],
}

/// The lexical scopes around the walk's position.
pub struct Scopes {
    /// Enclosing namespaces and classes
    pub scope_stack: Vec<String>,
    /// Enclosing classes
    pub class_stack: Vec<String>,
    /// The candidate symbol whose body is being walked
    pub current_symbol: Option<CandidateSymbolId>,
}

/// The enclosing symbol, if any, is stored in the index.
pub open spec fn scopes_ok(sc: Scopes, idx: DiscoveryIndex) -> bool {
    sc.current_symbol matches Some(c) ==> valid_id(c.0, idx.symbols@.len())
}

/// The scopes are as they were.
pub open spec fn same_scopes(a: Scopes, b: Scopes) -> bool {
    a.scope_stack@ == b.scope_stack@ && a.class_stack@ == b.class_stack@ && a.current_symbol == b.current_symbol
}

/// Whether a byte may occur in a C/C++ identifier.
pub open spec fn identifier_byte(b: u8) -> bool {
    b == 95u8 || (48u8 <= b <= 57u8) || (65u8 <= b <= 90u8) || (97u8 <= b <= 122u8)
}

/// Whether a byte may occur in a C/C++ identifier: `_` or an ASCII letter or digit.
pub fn is_identifier_byte(byte: u8) -> (r: bool)
    ensures
        r == identifier_byte(byte),
{
    byte == 95u8 || (48u8 <= byte && byte <= 57u8) || (65u8 <= byte && byte <= 90u8) || (97u8 <= byte && byte <= 122u8)
}

/// Whether `needle` occurs in `content` at `offset`, standing alone when it is an
/// identifier (no identifier byte right before or after it).
pub open spec fn spelled_at(content: Seq<u8>, needle: Seq<u8>, offset: int) -> bool {
    &&& 0 <= offset
    &&& offset + needle.len() <= content.len()
    &&& content.subrange(offset, offset + needle.len()) == needle
    &&& (forall|k: int| 0 <= k < needle.len() ==> identifier_byte(#[trigger] needle[k])) ==> {
        &&& (offset == 0 || !identifier_byte(content[offset - 1]))
        &&& (offset + needle.len() == content.len() || !identifier_byte(content[offset + needle.len()]))
    }
}

/// The text prefilter: whether a file's bytes hold the spelling, on identifier
/// boundaries when the spelling is an identifier. Comments and strings count.
pub fn file_contains_spelling(content: &[u8], spelling: &str) -> (r: bool)
    ensures
        r == (vstd::utf8::encode_utf8(spelling@).len() > 0
            && exists|o: int| spelled_at(content@, vstd::utf8::encode_utf8(spelling@), o)),
{
    let needle = spelling.as_bytes();
    let m = needle.len();
    let n = content.len();
    assert(needle@ == vstd::utf8::encode_utf8(spelling@));
    if m == 0 {
        return false;
    }
    if n < m {
        proof {
            assert forall|o: int| !spelled_at(content@, needle@, o) by {}
        }
        return false;
    }
    let mut identifier = true;
    let mut k: usize = 0;
    while k < m
        invariant
            m == needle@.len(),
            k <= m,
            identifier == (forall|t: int| 0 <= t < k ==> identifier_byte(#[trigger] needle@[t])),
        decreases m - k,
    {
        if !is_identifier_byte(needle[k]) {
            identifier = false;
        }
        k = k + 1;
    }
    let mut off: usize = 0;
    while off <= n - m
        invariant
            n == content@.len(),
            m == needle@.len(),
            0 < m <= n,
            off <= n - m + 1,
            needle@ == vstd::utf8::encode_utf8(spelling@),
            identifier == (forall|t: int| 0 <= t < m ==> identifier_byte(#[trigger] needle@[t])),
            forall|o: int| 0 <= o < off ==> !spelled_at(content@, needle@, o),
        decreases n - m + 1 - off,
    {
        if bytes_equal_at(content, needle, off) {
            let left_ok = off == 0 || !is_identifier_byte(content[off - 1]);
            let end = off + m;
            let right_ok = end == n || !is_identifier_byte(content[end]);
            if !identifier || (left_ok && right_ok) {
                assert(spelled_at(content@, needle@, off as int));
                return true;
            }
        }
        off = off + 1;
    }
    proof {
        assert forall|o: int| !spelled_at(content@, needle@, o) by {
            if 0 <= o && o + m <= n {
                assert(o < off);
            }
        }
    }
    false
}

fn bytes_equal_at(s: &[u8], p: &[u8], i: usize) -> (r: bool)
    requires
        i + p@.len() <= s@.len(),
    ensures
        r == (s@.subrange(i as int, i + p@.len()) == p@),
{
    let m = p.len();
    let mut k: usize = 0;
    while k < m
        invariant
            m == p@.len(),
            s@.len() == s.len(),
            i + m <= s@.len(),
            k <= m,
            forall|t: int| 0 <= t < k ==> s@[i + t] == p@[t],
        decreases m - k,
    {
        if s[i + k] != p[k] {
            assert(s@.subrange(i as int, i + m)[k as int] != p@[k as int]);
            return false;
        }
        k = k + 1;
    }
    assert(s@.subrange(i as int, i + m) =~= p@);
    true
}

/// The language of a file by its extension: `c` and `h` (any case) are C, the
/// rest C++.
pub open spec fn language_of(path: Seq<char>) -> Language {
    match crate::paths::extension_spec(path) {
        Some(e) => if crate::project::eq_lower(e, "c"@) || crate::project::eq_lower(e, "h"@) { Language::C } else { Language::Cpp },
        None => Language::Cpp,
    }
}

/// The language of a file by its extension: `c` and `h` (any case) are C, the
/// rest C++.
pub fn detect_language(path: &str) -> (r: Language)
    ensures
        r == language_of(path@),
{
    match crate::paths::extension(path) {
        None => Language::Cpp,
        Some(e) => {
            if crate::project::is_c_or_h(e.as_str()) {
                Language::C
            } else {
                Language::Cpp
            }
        },
    }
}

/// `n + 1` as a `u32`, wrapping (a 0-based row or column made 1-based).
pub open spec fn one_based_spec(n: usize) -> u32 {
    ((n as int + 1) % 0x1_0000_0000) as u32
}

fn one_based(n: usize) -> (r: u32)
    ensures
        r == one_based_spec(n),
{
    let w: u128 = n as u128 + 1;
    (w % 0x1_0000_0000u128) as u32
}

/// The 1-based range of a node in a file.
pub open spec fn node_range_spec(file: Seq<char>, n: SyntaxNode) -> (Seq<char>, LineColumn, LineColumn) {
    (file, LineColumn { line: one_based_spec(n.start.row), column: one_based_spec(n.start.column) },
        LineColumn { line: one_based_spec(n.end.row), column: one_based_spec(n.end.column) })
}

/// The range a node covers in a file, with 1-based lines and columns.
pub fn node_range(file: &str, n: &SyntaxNode) -> (r: SourceRange)
    ensures
        r.start.file@ == file@,
        r.start.point == Some(node_range_spec(file@, *n).1),
        r.end matches Some(e) && e.file@ == file@ && e.point == Some(node_range_spec(file@, *n).2),
        enc_range(r) == node_range_code(file@, *n),
{
    let start = SourceLocation::new(file, one_based(n.start.row), one_based(n.start.column));
    let end = SourceLocation::new(file, one_based(n.end.row), one_based(n.end.column));
    let r = SourceRange::spanned(start, end);
    proof {
        assert(enc_range(r) =~= node_range_code(file@, *n));
    }
    r
}

/// Lists `id` under a name key.
fn register_symbol_name(idx: &mut DiscoveryIndex, code: Vec<u32>, nk: NameKey, id: CandidateSymbolId)
    requires
        old(idx).wf(),
        code@ == name_code(nk.terminal_name@, opt_view(nk.qualifier)),
        old(idx).symbol_named(id, nk.terminal_name@),
    ensures
        final(idx).wf(),
        final(idx).symbols@ == old(idx).symbols@,
        final(idx).calls@ == old(idx).calls@,
        final(idx).calls_by_caller@ == old(idx).calls_by_caller@,
        final(idx).calls_by_spelling == old(idx).calls_by_spelling,
        final(idx).include_parents == old(idx).include_parents,
        final(idx).file_includes == old(idx).file_includes,
        list_at(final(idx).symbols_by_name, code@) == list_at(old(idx).symbols_by_name, code@).push(id),
        forall|k: Seq<u32>| k != code@ ==> #[trigger] list_at(final(idx).symbols_by_name, k) == list_at(old(idx).symbols_by_name, k),
{
    let ghost om = idx.symbols_by_name;
    let ghost tag = nk;
    let pos = append_to_entry(&mut idx.symbols_by_name, code, nk, id);
    proof {
        let m = idx.symbols_by_name;
        assert forall|i: int| 0 <= i < m.size() implies idx.symbol_entry_ok(#[trigger] m.vals@[i], m.key_view()[i]) by {
            if om.contains(code@) {
                if i == pos {
                    assert(old(idx).symbol_entry_ok(om.vals@[i], om.key_view()[i]));
                    assert(om.key_view()[i] == code@);
                    let ids = m.vals@[i].1@;
                    assert forall|j: int| 0 <= j < ids.len() implies idx.symbol_named(#[trigger] ids[j], m.vals@[i].0.terminal_name@) by {
                        if j < ids.len() - 1 {
                            assert(ids[j] == om.vals@[i].1@[j]);
                        } else {
                            lemma_enc_str_prefix_injective(om.vals@[i].0.terminal_name@, tag.terminal_name@,
                                crate::discovery::enc_opt_chars(opt_view(om.vals@[i].0.qualifier)),
                                crate::discovery::enc_opt_chars(opt_view(tag.qualifier)));
                        }
                    }
                } else {
                    assert(m.vals@[i] == om.vals@[i]);
                    assert(old(idx).symbol_entry_ok(om.vals@[i], om.key_view()[i]));
                }
            } else {
                if i < pos {
                    assert(m.vals@[i] == om.vals@[i]);
                    assert(m.key_view()[i] == om.key_view()[i]);
                    assert(old(idx).symbol_entry_ok(om.vals@[i], om.key_view()[i]));
                } else if i > pos {
                    assert(m.vals@[i] == om.vals@[i - 1]);
                    assert(m.key_view()[i] == om.key_view()[i - 1]);
                    assert(old(idx).symbol_entry_ok(om.vals@[i - 1], om.key_view()[i - 1]));
                } else {
                    assert(m.vals@[i].1@ == seq![id]);
                    assert(m.vals@[i].0 == tag);
                }
            }
        }
    }
}

/// Lists `id` under a spelling key.
fn register_call_name(idx: &mut DiscoveryIndex, code: Vec<u32>, nk: NameKey, id: CandidateCallId)
    requires
        old(idx).wf(),
        code@ == name_code(nk.terminal_name@, opt_view(nk.qualifier)),
        old(idx).call_spelled(id, nk.terminal_name@, opt_view(nk.qualifier)),
    ensures
        final(idx).wf(),
        final(idx).symbols@ == old(idx).symbols@,
        final(idx).calls@ == old(idx).calls@,
        final(idx).calls_by_caller@ == old(idx).calls_by_caller@,
        final(idx).symbols_by_name == old(idx).symbols_by_name,
        final(idx).include_parents == old(idx).include_parents,
        final(idx).file_includes == old(idx).file_includes,
        list_at(final(idx).calls_by_spelling, code@) == list_at(old(idx).calls_by_spelling, code@).push(id),
        forall|k: Seq<u32>| k != code@ ==> #[trigger] list_at(final(idx).calls_by_spelling, k) == list_at(old(idx).calls_by_spelling, k),
{
    let ghost om = idx.calls_by_spelling;
    let ghost tag = nk;
    let pos = append_to_entry(&mut idx.calls_by_spelling, code, nk, id);
    proof {
        let m = idx.calls_by_spelling;
        assert forall|i: int| 0 <= i < m.size() implies idx.call_entry_ok(#[trigger] m.vals@[i], m.key_view()[i]) by {
            if om.contains(code@) {
                if i == pos {
                    assert(old(idx).call_entry_ok(om.vals@[i], om.key_view()[i]));
                    assert(om.key_view()[i] == code@);
                    let e = m.vals@[i];
                    let ids = e.1@;
                    lemma_enc_str_prefix_injective(om.vals@[i].0.terminal_name@, tag.terminal_name@,
                        crate::discovery::enc_opt_chars(opt_view(om.vals@[i].0.qualifier)),
                        crate::discovery::enc_opt_chars(opt_view(tag.qualifier)));
                    lemma_enc_opt_chars_injective(opt_view(om.vals@[i].0.qualifier), opt_view(tag.qualifier));
                    assert forall|j: int| 0 <= j < ids.len() implies idx.call_spelled(#[trigger] ids[j], e.0.terminal_name@, opt_view(e.0.qualifier)) by {
                        if j < ids.len() - 1 {
                            assert(ids[j] == om.vals@[i].1@[j]);
                        }
                    }
                } else {
                    assert(m.vals@[i] == om.vals@[i]);
                    assert(old(idx).call_entry_ok(om.vals@[i], om.key_view()[i]));
                }
            } else {
                if i < pos {
                    assert(m.vals@[i] == om.vals@[i]);
                    assert(m.key_view()[i] == om.key_view()[i]);
                    assert(old(idx).call_entry_ok(om.vals@[i], om.key_view()[i]));
                } else if i > pos {
                    assert(m.vals@[i] == om.vals@[i - 1]);
                    assert(m.key_view()[i] == om.key_view()[i - 1]);
                    assert(old(idx).call_entry_ok(om.vals@[i - 1], om.key_view()[i - 1]));
                } else {
                    assert(m.vals@[i].1@ == seq![id]);
                    assert(m.vals@[i].0 == tag);
                }
            }
        }
    }
}

/// Keys that share a string prefix code and a marker-led tail have the same string.
pub proof fn lemma_enc_str_prefix_injective(a: Seq<char>, b: Seq<char>, x: Seq<u32>, y: Seq<u32>)
    requires
        crate::order::enc_str(a) + x == crate::order::enc_str(b) + y,
    ensures
        a == b,
        x == y,
{
    let ea = crate::order::enc_str(a);
    let eb = crate::order::enc_str(b);
    if a.len() < b.len() {
        assert((ea + x)[a.len() as int] == 0u32);
        assert((eb + y)[a.len() as int] == crate::order::char_code(b[a.len() as int]));
    } else if b.len() < a.len() {
        assert((eb + y)[b.len() as int] == 0u32);
        assert((ea + x)[b.len() as int] == crate::order::char_code(a[b.len() as int]));
    } else {
        assert forall|i: int| 0 <= i < a.len() implies a[i] == b[i] by {
            assert((ea + x)[i] == (eb + y)[i]);
            assert((ea + x)[i] == crate::order::char_code(a[i]));
            assert((eb + y)[i] == crate::order::char_code(b[i]));
            vstd::utf8::char_is_scalar(a[i]);
            vstd::utf8::char_is_scalar(b[i]);
            assert(a[i] as u32 == b[i] as u32);
            vstd::utf8::char_u32_cast(a[i], a[i] as u32);
            vstd::utf8::char_u32_cast(b[i], b[i] as u32);
        }
        assert(a =~= b);
        assert(x =~= (ea + x).skip(ea.len() as int));
        assert(y =~= (eb + y).skip(eb.len() as int));
    }
}

/// Optional-string codes determine the optional string.
pub proof fn lemma_enc_opt_chars_injective(a: Option<Seq<char>>, b: Option<Seq<char>>)
    requires
        crate::discovery::enc_opt_chars(a) == crate::discovery::enc_opt_chars(b),
    ensures
        a == b,
{
    match (a, b) {
        (Some(x), Some(y)) => {
            assert(crate::order::enc_str(x) =~= crate::discovery::enc_opt_chars(a).drop_first());
            assert(crate::order::enc_str(y) =~= crate::discovery::enc_opt_chars(b).drop_first());
            assert(crate::order::enc_str(x) + Seq::<u32>::empty() =~= crate::order::enc_str(x));
            assert(crate::order::enc_str(y) + Seq::<u32>::empty() =~= crate::order::enc_str(y));
            lemma_enc_str_prefix_injective(x, y, Seq::empty(), Seq::empty());
        },
        (Some(x), None) => {
            assert(crate::discovery::enc_opt_chars(a)[0] == 1u32);
            assert(crate::discovery::enc_opt_chars(b)[0] == 0u32);
        },
        (None, Some(y)) => {
            assert(crate::discovery::enc_opt_chars(a)[0] == 0u32);
            assert(crate::discovery::enc_opt_chars(b)[0] == 1u32);
        },
        (None, None) => {},
    }
}

/// Stores a new candidate symbol under the next identifier and lists it under its
/// name key, and under its bare name when it is qualified.
fn register_symbol(idx: &mut DiscoveryIndex, cand: CandidateSymbol)
    requires
        old(idx).wf(),
        old(idx).symbols@.len() + 2 < u32::MAX,
        cand.id.0 == old(idx).symbols@.len() + 1,
    ensures
        final(idx).wf(),
        final(idx).symbols@ == old(idx).symbols@.push(cand),
        final(idx).calls@ == old(idx).calls@,
        final(idx).include_parents == old(idx).include_parents,
        final(idx).file_includes == old(idx).file_includes,
{
    let id = cand.id;
    let name = cand.name.clone();
    let q = clone_opt_string(&cand.qualifier_hint);
    let ghost before = *idx;
    idx.symbols.push(cand);
    idx.calls_by_caller.push(Vec::new());
    proof {
        assert forall|i: int| 0 <= i < idx.symbols_by_name.size() implies
            idx.symbol_entry_ok(#[trigger] idx.symbols_by_name.vals@[i], idx.symbols_by_name.key_view()[i]) by {
            let e = idx.symbols_by_name.vals@[i];
            assert(before.symbol_entry_ok(e, idx.symbols_by_name.key_view()[i]));
            assert forall|j: int| 0 <= j < e.1@.len() implies idx.symbol_named(#[trigger] e.1@[j], e.0.terminal_name@) by {
                assert(before.symbol_named(e.1@[j], e.0.terminal_name@));
                assert(idx.symbols@[e.1@[j].0 - 1] == before.symbols@[e.1@[j].0 - 1]);
            }
        }
        assert forall|i: int| 0 <= i < idx.calls_by_spelling.size() implies
            idx.call_entry_ok(#[trigger] idx.calls_by_spelling.vals@[i], idx.calls_by_spelling.key_view()[i]) by {
            let e = idx.calls_by_spelling.vals@[i];
            assert(before.call_entry_ok(e, idx.calls_by_spelling.key_view()[i]));
            assert forall|j: int| 0 <= j < e.1@.len() implies idx.call_spelled(#[trigger] e.1@[j], e.0.terminal_name@, opt_view(e.0.qualifier)) by {
                assert(before.call_spelled(e.1@[j], e.0.terminal_name@, opt_view(e.0.qualifier)));
            }
        }
        assert forall|k: int, j: int| 0 <= k < idx.calls_by_caller@.len() && 0 <= j < idx.calls_by_caller@[k]@.len() implies
            idx.call_within(#[trigger] idx.calls_by_caller@[k]@[j], CandidateSymbolId((k + 1) as u32)) by {
            if k < before.calls_by_caller@.len() {
                assert(idx.calls_by_caller@[k] == before.calls_by_caller@[k]);
                assert(before.call_within(before.calls_by_caller@[k]@[j], CandidateSymbolId((k + 1) as u32)));
            }
        }
        assert(idx.symbols@[id.0 - 1].name@ == name@);
    }
    let code = name_key_code(name.as_str(), &q);
    let bare_needed = q.is_some();
    let nk = NameKey { terminal_name: name.clone(), qualifier: q };
    register_symbol_name(idx, code, nk, id);
    if bare_needed {
        let none: Option<String> = None;
        let code2 = name_key_code(name.as_str(), &none);
        let bare = NameKey { terminal_name: name, qualifier: None };
        register_symbol_name(idx, code2, bare, id);
    }
}

/// Stores a new candidate call under the next identifier, lists it within its
/// enclosing symbol and under its spelling.
fn register_call(idx: &mut DiscoveryIndex, call: CandidateCallSite)
    requires
        old(idx).wf(),
        old(idx).calls@.len() + 2 < u32::MAX,
        call.id.0 == old(idx).calls@.len() + 1,
        valid_id(call.caller.0, old(idx).symbols@.len()),
    ensures
        final(idx).wf(),
        final(idx).symbols@ == old(idx).symbols@,
        final(idx).calls@ == old(idx).calls@.push(call),
        final(idx).include_parents == old(idx).include_parents,
        final(idx).file_includes == old(idx).file_includes,
{
    let id = call.id;
    let caller = call.caller;
    let spelling = call.callee_spelling.clone();
    let q = clone_opt_string(&call.qualifier_hint);
    let ghost before = *idx;
    idx.calls.push(call);
    let k = (caller.0 - 1) as usize;
    let mut list: Vec<CandidateCallId> = Vec::new();
    std::mem::swap(&mut list, &mut idx.calls_by_caller[k]);
    list.push(id);
    std::mem::swap(&mut list, &mut idx.calls_by_caller[k]);
    proof {
        assert(idx.calls_by_caller@ == before.calls_by_caller@.update(k as int, idx.calls_by_caller@[k as int]));
        assert(idx.calls_by_caller@[k as int]@ == before.calls_by_caller@[k as int]@.push(id));
        assert forall|i: int| 0 <= i < idx.symbols_by_name.size() implies
            idx.symbol_entry_ok(#[trigger] idx.symbols_by_name.vals@[i], idx.symbols_by_name.key_view()[i]) by {
            let e = idx.symbols_by_name.vals@[i];
            assert(before.symbol_entry_ok(e, idx.symbols_by_name.key_view()[i]));
            assert forall|j: int| 0 <= j < e.1@.len() implies idx.symbol_named(#[trigger] e.1@[j], e.0.terminal_name@) by {
                assert(before.symbol_named(e.1@[j], e.0.terminal_name@));
            }
        }
        assert forall|i: int| 0 <= i < idx.calls_by_spelling.size() implies
            idx.call_entry_ok(#[trigger] idx.calls_by_spelling.vals@[i], idx.calls_by_spelling.key_view()[i]) by {
            let e = idx.calls_by_spelling.vals@[i];
            assert(before.call_entry_ok(e, idx.calls_by_spelling.key_view()[i]));
            assert forall|j: int| 0 <= j < e.1@.len() implies idx.call_spelled(#[trigger] e.1@[j], e.0.terminal_name@, opt_view(e.0.qualifier)) by {
                assert(before.call_spelled(e.1@[j], e.0.terminal_name@, opt_view(e.0.qualifier)));
                assert(idx.calls@[e.1@[j].0 - 1] == before.calls@[e.1@[j].0 - 1]);
            }
        }
        assert forall|kk: int, j: int| 0 <= kk < idx.calls_by_caller@.len() && 0 <= j < idx.calls_by_caller@[kk]@.len() implies
            idx.call_within(#[trigger] idx.calls_by_caller@[kk]@[j], CandidateSymbolId((kk + 1) as u32)) by {
            if kk == k && j == before.calls_by_caller@[k as int]@.len() {
                assert(idx.calls_by_caller@[kk]@[j] == id);
                assert(idx.calls@[id.0 - 1].caller == caller);
            } else {
                assert(idx.calls_by_caller@[kk]@[j] == before.calls_by_caller@[kk]@[j]);
                assert(before.call_within(before.calls_by_caller@[kk]@[j], CandidateSymbolId((kk + 1) as u32)));
                assert(idx.calls@[before.calls_by_caller@[kk]@[j].0 - 1] == before.calls@[before.calls_by_caller@[kk]@[j].0 - 1]);
            }
        }
        assert forall|kk: int| 0 <= kk < idx.calls@.len() implies (#[trigger] idx.calls@[kk]).id.0 == kk + 1
            && valid_id(idx.calls@[kk].caller.0, idx.symbols@.len()) by {
            if kk < before.calls@.len() {
                assert(idx.calls@[kk] == before.calls@[kk]);
            }
        }
        assert(idx.calls@[id.0 - 1].callee_spelling@ == spelling@);
    }
    let code = name_key_code(spelling.as_str(), &q);
    let nk = NameKey { terminal_name: spelling, qualifier: q };
    register_call_name(idx, code, nk, id);
}

/// The characters an include path is wrapped in.
pub open spec fn include_delim(c: char) -> bool {
    c == '<' || c == '>' || c == '"'
}

/// The number of leading characters of `s` that are include delimiters.
pub open spec fn lead_delims(s: Seq<char>) -> nat
    decreases s.len(),
{
    if s.len() > 0 && include_delim(s[0]) { 1 + lead_delims(s.drop_first()) } else { 0 }
}

/// The number of trailing characters of `s` that are include delimiters.
pub open spec fn trail_delims(s: Seq<char>) -> nat
    decreases s.len(),
{
    if s.len() > 0 && include_delim(s.last()) { 1 + trail_delims(s.drop_last()) } else { 0 }
}

/// `s` without the include delimiters at either end (`trim_matches`).
pub open spec fn trim_delims(s: Seq<char>) -> Seq<char> {
    let t = s.skip(lead_delims(s) as int);
    t.take(t.len() - trail_delims(t))
}

proof fn lemma_lead(s: Seq<char>, i: int)
    requires
        0 <= i <= s.len(),
        forall|k: int| 0 <= k < i ==> include_delim(s[k]),
        i == s.len() || !include_delim(s[i]),
    ensures
        lead_delims(s) == i,
    decreases i,
{
    if i > 0 {
        lemma_lead(s.drop_first(), i - 1);
    }
}

proof fn lemma_trail(s: Seq<char>, j: int)
    requires
        0 <= j <= s.len(),
        forall|k: int| j <= k < s.len() ==> include_delim(s[k]),
        j == 0 || !include_delim(s[j - 1]),
    ensures
        trail_delims(s) == s.len() - j,
    decreases s.len() - j,
{
    if j < s.len() {
        lemma_trail(s.drop_last(), j);
    }
}

/// An include path without its `<>` or `""` delimiters.
pub fn trim_include(raw: &str) -> (r: String)
    ensures
        r@ == trim_delims(raw@),
{
    let cs = chars_of(raw);
    let n = cs.len();
    let mut i: usize = 0;
    while i < n && (cs[i] == '<' || cs[i] == '>' || cs[i] == '"')
        invariant
            n == cs@.len(),
            i <= n,
            forall|k: int| 0 <= k < i ==> include_delim(cs@[k]),
        decreases n - i,
    {
        i = i + 1;
    }
    proof { lemma_lead(cs@, i as int); }
    let ghost t = cs@.skip(i as int);
    let mut j: usize = n;
    while j > i && (cs[j - 1] == '<' || cs[j - 1] == '>' || cs[j - 1] == '"')
        invariant
            n == cs@.len(),
            i <= j <= n,
            t == cs@.skip(i as int),
            forall|k: int| j <= k < n ==> include_delim(cs@[k]),
        decreases j,
    {
        j = j - 1;
    }
    proof {
        lemma_trail(t, j - i);
        assert(t.take(t.len() - trail_delims(t)) =~= cs@.subrange(i as int, j as int));
    }
    string_of_range(&cs, i, j)
}

/// Components with `..` folded into the component before it (a root has no parent).
pub open spec fn fold_parts(parts: Seq<Seq<char>>, root: bool) -> Seq<Seq<char>>
    decreases parts.len(),
{
    if parts.len() == 0 {
        Seq::empty()
    } else {
        let acc = fold_parts(parts.drop_last(), root);
        let p = parts.last();
        if p == seq!['.', '.'] {
            if acc.len() > 0 && acc.last() != seq!['.', '.'] {
                acc.drop_last()
            } else if root {
                acc
            } else {
                acc.push(p)
            }
        } else {
            acc.push(p)
        }
    }
}

/// Components joined by `/`.
pub open spec fn slash_join(parts: Seq<Seq<char>>) -> Seq<char>
    decreases parts.len(),
{
    if parts.len() == 0 {
        Seq::empty()
    } else if parts.len() == 1 {
        parts[0]
    } else {
        slash_join(parts.drop_last()) + seq!['/'] + parts.last()
    }
}

/// A path with `.` dropped and `..` folded, lexically.
pub open spec fn lexical_norm(path: Seq<char>) -> Seq<char> {
    let root = crate::paths::has_root(path);
    let body = slash_join(fold_parts(crate::paths::path_parts(path), root));
    if root { seq!['/'] + body } else { body }
}

fn is_dotdot(p: &String) -> (r: bool)
    ensures
        r == (p@ == seq!['.', '.']),
{
    let cs = chars_of(p.as_str());
    let r = cs.len() == 2 && cs[0] == '.' && cs[1] == '.';
    proof {
        if r {
            assert(p@ =~= seq!['.', '.']);
        } else if p@.len() == 2 {
            assert(p@[0] == cs@[0] && p@[1] == cs@[1]);
        }
    }
    r
}

/// A path with `.` dropped and `..` folded, lexically.
pub fn normalize_lexically(path: &str) -> (r: String)
    ensures
        r@ == lexical_norm(path@),
{
    let c = components(path);
    let parts = c.parts;
    let ghost pv = c.parts_view();
    let n = parts.len();
    let mut acc: Vec<String> = Vec::new();
    for i in 0..n
        invariant
            n == parts@.len(),
            pv == parts@.map_values(|p: String| p@),
            acc@.map_values(|p: String| p@) == fold_parts(pv.take(i as int), c.root),
    {
        let ghost before = acc@;
        assert(pv.take(i + 1).drop_last() =~= pv.take(i as int));
        assert(pv.take(i + 1).last() == parts@[i as int]@);
        let len = acc.len();
        if is_dotdot(&parts[i]) {
            if len > 0 && !is_dotdot(&acc[len - 1]) {
                acc.pop();
                assert(acc@.map_values(|p: String| p@) =~= before.map_values(|p: String| p@).drop_last());
            } else if c.root {
            } else {
                acc.push(parts[i].clone());
                assert(acc@.map_values(|p: String| p@) =~= before.map_values(|p: String| p@).push(parts@[i as int]@));
            }
        } else {
            acc.push(parts[i].clone());
            assert(acc@.map_values(|p: String| p@) =~= before.map_values(|p: String| p@).push(parts@[i as int]@));
        }
    }
    assert(pv.take(n as int) =~= pv);
    let ghost folded = acc@.map_values(|p: String| p@);
    let mut out = String::new();
    let m = acc.len();
    for i in 0..m
        invariant
            m == acc@.len(),
            folded == acc@.map_values(|p: String| p@),
            out@ == slash_join(folded.take(i as int)),
    {
        let ghost before = out@;
        if i > 0 {
            crate::text::push_char(&mut out, '/');
        }
        push_str(&mut out, acc[i].as_str());
        proof {
            assert(folded.take(i + 1).drop_last() =~= folded.take(i as int));
            assert(folded.take(i + 1).last() == acc@[i as int]@);
            if i == 0 {
                assert(folded.take(1)[0] == acc@[0]@);
                assert(out@ =~= acc@[0]@);
            }
        }
    }
    assert(folded.take(m as int) =~= folded);
    if c.root {
        let mut r = String::new();
        crate::text::push_char(&mut r, '/');
        push_str(&mut r, out.as_str());
        assert(r@ =~= seq!['/'] + out@);
        r
    } else {
        out
    }
}

/// The catalog file whose path has the same key as `path`.
pub fn find_in_catalog(catalog: &[SourceFile], path: &str) -> (r: Option<usize>)
    ensures
        r matches Some(i) ==> i < catalog@.len() && enc_path(catalog@[i as int].path@) == enc_path(path@),
        r is None ==> forall|i: int| 0 <= i < catalog@.len() ==> enc_path(#[trigger] catalog@[i].path@) != enc_path(path@),
{
    let k = path_key(path);
    let n = catalog.len();
    for i in 0..n
        invariant
            n == catalog@.len(),
            k@ == enc_path(path@),
            forall|j: int| 0 <= j < i ==> enc_path(#[trigger] catalog@[j].path@) != enc_path(path@),
    {
        let ck = path_key(catalog[i].path.as_str());
        if crate::order::compare_codes(ck.as_slice(), k.as_slice()) == crate::order::KeyOrder::Equal {
            return Some(i);
        }
    }
    None
}

/// Adds `item` to the set held under `key`, creating the entry `(tag, {item})`.
pub fn insert_into_set_entry(m: &mut OrdMap<(String, OrdMap<String>)>, key: Vec<u32>, tag: String, item_key: Vec<u32>, item: String)
    requires
        old(m).wf(),
        forall|i: int| 0 <= i < old(m).size() ==> (#[trigger] old(m).vals@[i]).1.wf(),
    ensures
        final(m).wf(),
        forall|i: int| 0 <= i < final(m).size() ==> (#[trigger] final(m).vals@[i]).1.wf(),
        final(m).contains(key@),
        forall|k: Seq<u32>, j: Seq<u32>| #[trigger] set_has(*final(m), k, j) <==> (set_has(*old(m), k, j) || (k == key@ && j == item_key@)),
{
    let ghost om = *m;
    match m.find(key.as_slice()) {
        Ok(i) => {
            let (t, mut set) = m.replace_at(i, (String::new(), OrdMap::new()));
            let ghost os = set;
            let q = set.insert(item_key, item);
            let ghost ns = set;
            let _ = m.replace_at(i, (t, set));
            proof {
                assert(m.key_view() =~= old(m).key_view());
                assert forall|j: int| 0 <= j < m.size() implies (#[trigger] m.vals@[j]).1.wf() by {
                    if j != i {
                        assert(m.vals@[j] == old(m).vals@[j]);
                    }
                }
                assert(m.key_view()[i as int] == key@);
                lemma_insert_effect(os, ns, item_key@, item, q as int);
                assert forall|k: Seq<u32>, j: Seq<u32>| #[trigger] set_has(*m, k, j) <==> (set_has(om, k, j) || (k == key@ && j == item_key@)) by {
                    if set_has(*m, k, j) {
                        let b = choose|b: int| 0 <= b < m.size() && m.key_view()[b] == k && m.vals@[b].1.contains(j);
                        if b != i {
                            assert(m.vals@[b] == om.vals@[b]);
                        } else if j != item_key@ {
                            assert(os.contains(j));
                        }
                    }
                    if set_has(om, k, j) {
                        let b = choose|b: int| 0 <= b < om.size() && om.key_view()[b] == k && om.vals@[b].1.contains(j);
                        if b != i {
                            assert(m.vals@[b] == om.vals@[b]);
                        } else {
                            assert(ns.contains(j));
                        }
                        assert(m.key_view()[b] == k);
                    }
                    if k == key@ && j == item_key@ {
                        assert(ns.contains(j));
                    }
                }
            }
        },
        Err(_) => {
            let mut set: OrdMap<String> = OrdMap::new();
            let ghost es = set;
            let q = set.insert(item_key, item);
            let ghost ns = set;
            let p = m.insert(key, (tag, set));
            proof {
                assert forall|j: int| 0 <= j < m.size() implies (#[trigger] m.vals@[j]).1.wf() by {
                    if j < p {
                        assert(m.vals@[j] == om.vals@[j]);
                    } else if j > p {
                        assert(m.vals@[j] == om.vals@[j - 1]);
                    }
                }
                assert(m.key_view()[p as int] == key@);
                lemma_insert_effect(es, ns, item_key@, item, q as int);
                assert forall|k: Seq<u32>, j: Seq<u32>| #[trigger] set_has(*m, k, j) <==> (set_has(om, k, j) || (k == key@ && j == item_key@)) by {
                    if set_has(*m, k, j) {
                        let b = choose|b: int| 0 <= b < m.size() && m.key_view()[b] == k && m.vals@[b].1.contains(j);
                        if b < p {
                            assert(m.vals@[b] == om.vals@[b] && m.key_view()[b] == om.key_view()[b]);
                        } else if b > p {
                            assert(m.vals@[b] == om.vals@[b - 1] && m.key_view()[b] == om.key_view()[b - 1]);
                        } else {
                            assert(!es.contains(j));
                        }
                    }
                    if set_has(om, k, j) {
                        let b = choose|b: int| 0 <= b < om.size() && om.key_view()[b] == k && om.vals@[b].1.contains(j);
                        if b < p {
                            assert(m.vals@[b] == om.vals@[b] && m.key_view()[b] == k);
                        } else {
                            assert(m.vals@[b + 1] == om.vals@[b] && m.key_view()[b + 1] == k);
                        }
                    }
                    if k == key@ && j == item_key@ {
                        assert(ns.contains(j));
                    }
                }
            }
        },
    }
}

/// The set held under `k` holds `j`.
pub open spec fn set_has(m: OrdMap<(String, OrdMap<String>)>, k: Seq<u32>, j: Seq<u32>) -> bool {
    exists|b: int| 0 <= b < m.size() && m.key_view()[b] == k && m.vals@[b].1.contains(j)
}

/// Scopes joined as a qualifier: each followed by `::`.
pub open spec fn scope_text(s: Seq<String>) -> Seq<char>
    decreases s.len(),
{
    if s.len() == 0 { Seq::empty() } else { scope_text(s.drop_last()) + s.last()@ + seq![':', ':'] }
}

fn join_scopes(stack: &Vec<String>) -> (r: String)
    ensures
        r@ == scope_text(stack@),
{
    let mut out = String::new();
    let n = stack.len();
    for i in 0..n
        invariant
            n == stack@.len(),
            out@ == scope_text(stack@.take(i as int)),
    {
        push_str(&mut out, stack[i].as_str());
        crate::text::push_char(&mut out, ':');
        crate::text::push_char(&mut out, ':');
        assert(stack@.take(i + 1).drop_last() =~= stack@.take(i as int));
        assert(out@ =~= scope_text(stack@.take(i as int)) + stack@[i as int]@ + seq![':', ':']);
    }
    assert(stack@.take(n as int) =~= stack@);
    out
}

/// The qualifier of a declaration: the enclosing scopes, then the qualifier
/// written in the declarator.
pub open spec fn combined_qualifier(scopes: Seq<String>, written: Option<Seq<char>>) -> Option<Seq<char>> {
    if scopes.len() > 0 {
        match written {
            Some(q) => Some(scope_text(scopes) + q),
            None => Some(scope_text(scopes)),
        }
    } else {
        written
    }
}

/// The scope text begins with the outermost scope's name and `::`.
proof fn lemma_scope_text_starts(s: Seq<String>)
    requires
        s.len() > 0,
    ensures
        scope_text(s).len() >= s[0]@.len() + 2,
        scope_text(s).subrange(0, (s[0]@.len() + 2) as int) == s[0]@ + seq![':', ':'],
    decreases s.len(),
{
    if s.len() == 1 {
        assert(s.drop_last().len() == 0);
        assert(scope_text(s) =~= s[0]@ + seq![':', ':']);
    } else {
        lemma_scope_text_starts(s.drop_last());
        assert(s.drop_last()[0] == s[0]);
        let a = scope_text(s.drop_last());
        assert(scope_text(s) == a + s.last()@ + seq![':', ':']);
        assert((a + s.last()@ + seq![':', ':']).subrange(0, (s[0]@.len() + 2) as int) =~= a.subrange(0, (s[0]@.len() + 2) as int));
    }
}

/// A declaration's qualifier hint puts the enclosing scopes first, outermost
/// first, and the qualifier written in its declarator last: it ends with the
/// written qualifier and, inside a scope, begins with the outermost scope's name
/// followed by `::`; without a written qualifier it is the scopes alone.
pub proof fn law_qualifier_scopes_then_written(scopes: Seq<String>, written: Option<Seq<char>>)
    ensures
        written matches Some(q) ==> (combined_qualifier(scopes, written) matches Some(t)
            && t.len() >= q.len() && t.subrange(t.len() - q.len(), t.len() as int) == q),
        scopes.len() > 0 ==> (combined_qualifier(scopes, written) matches Some(t)
            && t.len() >= scopes[0]@.len() + 2 && t.subrange(0, (scopes[0]@.len() + 2) as int) == scopes[0]@ + seq![':', ':']),
        scopes.len() == 0 ==> combined_qualifier(scopes, written) == written,
{
    if scopes.len() > 0 {
        lemma_scope_text_starts(scopes);
        let st = scope_text(scopes);
        match written {
            Some(q) => {
                let t = st + q;
                assert(t.subrange(t.len() - q.len(), t.len() as int) =~= q);
                assert(t.subrange(0, (scopes[0]@.len() + 2) as int) =~= st.subrange(0, (scopes[0]@.len() + 2) as int));
            },
            None => {},
        }
    } else {
        match written {
            Some(q) => {
                assert(q.subrange(0, q.len() as int) =~= q);
            },
            None => {},
        }
    }
}

fn combine_qualifier(stack: &Vec<String>, written: Option<String>) -> (r: Option<String>)
    ensures
        opt_view(r) == combined_qualifier(stack@, opt_view(written)),
        written matches Some(q) ==> (r matches Some(t)
            && t@.len() >= q@.len() && t@.subrange(t@.len() - q@.len(), t@.len() as int) == q@),
        stack@.len() > 0 ==> (r matches Some(t) && t@.len() >= stack@[0]@.len() + 2
            && t@.subrange(0, (stack@[0]@.len() + 2) as int) == stack@[0]@ + seq![':', ':']),
{
    proof {
        law_qualifier_scopes_then_written(stack@, opt_view(written));
    }
    if stack.len() > 0 {
        let mut s = join_scopes(stack);
        match written {
            Some(q) => {
                push_str(&mut s, q.as_str());
                Some(s)
            },
            None => Some(s),
        }
    } else {
        written
    }
}

/// A scoped name split at its last `::`: the terminal name, and the qualifier
/// with its trailing `::`.
pub open spec fn split_scoped_spec(s: Seq<char>) -> (Seq<char>, Option<Seq<char>>) {
    match crate::text::last_occurrence(s, seq![':', ':']) {
        Some(p) => (s.subrange(p + 2, s.len() as int), Some(s.subrange(0, p + 2))),
        None => (s, None),
    }
}

/// `name` split at its last `::` into terminal name and qualifier.
fn split_scoped(full: String) -> (r: (String, Option<String>))
    ensures
        (r.0@, opt_view(r.1)) == split_scoped_spec(full@),
{
    let cs = chars_of(full.as_str());
    let sep = vec![':', ':'];
    assert(sep@ =~= seq![':', ':']);
    match rfind(&cs, &sep) {
        Some(p) => {
            assert(crate::text::occurs_at(cs@, sep@, p as int));
            assert(cs@.len() == cs.len());
            let qualifier = string_of_range(&cs, 0, p + 2);
            let name = string_of_range(&cs, p + 2, cs.len());
            (name, Some(qualifier))
        },
        None => (full, None),
    }
}

fn kind_is(n: &SyntaxNode, k: &str) -> (r: bool)
    ensures
        r == (n.kind@ == k@),
{
    str_eq(n.kind.as_str(), k)
}

/// The position of the first child of kind `k`, if any.
pub open spec fn first_of_kind(n: SyntaxNode, k: Seq<char>) -> Option<int> {
    if exists|i: int| 0 <= i < n.children@.len() && (#[trigger] n.children@[i]).kind@ == k {
        Some(choose|i: int| 0 <= i < n.children@.len() && n.children@[i].kind@ == k
            && forall|j: int| 0 <= j < i ==> (#[trigger] n.children@[j]).kind@ != k)
    } else {
        None
    }
}

/// The name a declarator declares and the qualifier written with it: through
/// function, pointer and reference declarators to the inner declarator; an
/// identifier or destructor name itself; a scoped name split at its last `::`;
/// otherwise the first identifier child, or the whole text.
pub open spec fn declared_name(src: Seq<u8>, cur: SyntaxNode) -> (Seq<char>, Option<Seq<char>>)
    decreases cur,
{
    if cur.kind@ == "function_declarator"@ || cur.kind@ == "pointer_declarator"@ || cur.kind@ == "reference_declarator"@ {
        match crate::syntax::field_index(cur, "declarator"@) {
            Some(i) => {
                if 0 <= i < cur.children@.len() {
                    proof {
                        assert(decreases_to!(cur => cur.children));
                        assert(decreases_to!(cur.children => cur.children@));
                        assert(decreases_to!(cur.children@ => cur.children@[i]));
                        assert(decreases_to!(cur => cur.children@[i]));
                    }
                    declared_name(src, cur.children@[i])
                } else {
                    (node_chars(src, cur), None)
                }
            },
            None => (node_chars(src, cur), None),
        }
    } else if cur.kind@ == "identifier"@ || cur.kind@ == "destructor_name"@ {
        (node_chars(src, cur), None)
    } else if cur.kind@ == "scoped_identifier"@ || cur.kind@ == "qualified_identifier"@ {
        split_scoped_spec(node_chars(src, cur))
    } else {
        match first_of_kind(cur, "identifier"@) {
            Some(i) => (node_chars(src, cur.children@[i]), None),
            None => (node_chars(src, cur), None),
        }
    }
}

/// The name a declarator declares, and the qualifier written with it.
fn declarator_name(src: &[u8], cur: &SyntaxNode) -> (r: (String, Option<String>))
    ensures
        (r.0@, opt_view(r.1)) == declared_name(src@, *cur),
    decreases cur,
{
    proof {
        reveal_strlit("function_declarator");
        reveal_strlit("pointer_declarator");
        reveal_strlit("reference_declarator");
        reveal_strlit("identifier");
        reveal_strlit("destructor_name");
        reveal_strlit("scoped_identifier");
        reveal_strlit("qualified_identifier");
        reveal_strlit("declarator");
    }
    if kind_is(cur, "function_declarator") || kind_is(cur, "pointer_declarator") || kind_is(cur, "reference_declarator") {
        match child_by_field(cur, "declarator") {
            Some(i) => declarator_name(src, &cur.children[i]),
            None => (node_text(src, cur), None),
        }
    } else if kind_is(cur, "identifier") || kind_is(cur, "destructor_name") {
        (node_text(src, cur), None)
    } else if kind_is(cur, "scoped_identifier") || kind_is(cur, "qualified_identifier") {
        split_scoped(node_text(src, cur))
    } else {
        let n = cur.children.len();
        let ghost expected = match first_of_kind(*cur, "identifier"@) {
            Some(i) => (node_chars(src@, cur.children@[i]), None),
            None => (node_chars(src@, *cur), None::<Seq<char>>),
        };
        assert(declared_name(src@, *cur) == expected);
        for i in 0..n
            invariant
                n == cur.children@.len(),
                forall|j: int| 0 <= j < i ==> (#[trigger] cur.children@[j]).kind@ != "identifier"@,
                declared_name(src@, *cur) == expected,
                expected == match first_of_kind(*cur, "identifier"@) {
                    Some(i) => (node_chars(src@, cur.children@[i]), None),
                    None => (node_chars(src@, *cur), None::<Seq<char>>),
                },
        {
            if kind_is(&cur.children[i], "identifier") {
                proof {
                    assert(cur.children@[i as int].kind@ == "identifier"@);
                    let c = choose|c: int| 0 <= c < cur.children@.len() && cur.children@[c].kind@ == "identifier"@
                        && forall|j: int| 0 <= j < c ==> (#[trigger] cur.children@[j]).kind@ != "identifier"@;
                    if c < i {
                        assert(cur.children@[c].kind@ != "identifier"@);
                    } else if c > i {
                        assert(cur.children@[i as int].kind@ != "identifier"@);
                    }
                    assert(first_of_kind(*cur, "identifier"@) == Some(i as int));
                }
                return (node_text(src, &cur.children[i]), None);
            }
        }
        proof {
            if first_of_kind(*cur, "identifier"@) is Some {
                let c = choose|c: int| 0 <= c < cur.children@.len() && cur.children@[c].kind@ == "identifier"@;
                assert(cur.children@[c].kind@ != "identifier"@);
            }
        }
        (node_text(src, cur), None)
    }
}

/// The callee written in a call's function part: its terminal name, the qualifier
/// written with it, and the call's syntactic form; a template function by its
/// name part.
pub open spec fn callee_parts(src: Seq<u8>, f: SyntaxNode) -> (Seq<char>, Option<Seq<char>>, CandidateCallKind)
    decreases f,
{
    if f.kind@ == "identifier"@ {
        (node_chars(src, f), None, CandidateCallKind::Direct)
    } else if f.kind@ == "scoped_identifier"@ || f.kind@ == "qualified_identifier"@ {
        let (n, q) = split_scoped_spec(node_chars(src, f));
        (n, q, CandidateCallKind::Qualified)
    } else if f.kind@ == "field_expression"@ {
        match crate::syntax::field_index(f, "field"@) {
            Some(i) => (node_chars(src, f.children@[i]), None, CandidateCallKind::Member),
            None => (Seq::empty(), None, CandidateCallKind::Member),
        }
    } else if f.kind@ == "template_function"@ {
        match crate::syntax::field_index(f, "name"@) {
            Some(i) => {
                if 0 <= i < f.children@.len() {
                    proof {
                        assert(decreases_to!(f => f.children));
                        assert(decreases_to!(f.children => f.children@));
                        assert(decreases_to!(f.children@ => f.children@[i]));
                        assert(decreases_to!(f => f.children@[i]));
                    }
                    callee_parts(src, f.children@[i])
                } else {
                    (node_chars(src, f), None, CandidateCallKind::Other)
                }
            },
            None => (node_chars(src, f), None, CandidateCallKind::Other),
        }
    } else {
        (node_chars(src, f), None, CandidateCallKind::Other)
    }
}

/// A call written `name<args>(...)` has the callee of `name(...)`: the callee
/// spelling, qualifier and call form of a `template_function` are those of its
/// name child. So a template call of an identifier is a direct call spelled
/// with the bare name.
pub proof fn law_template_call_is_its_name(src: Seq<u8>, f: SyntaxNode, i: int)
    requires
        f.kind@ == "template_function"@,
        crate::syntax::field_index(f, "name"@) == Some(i),
        0 <= i < f.children@.len(),
    ensures
        callee_parts(src, f) == callee_parts(src, f.children@[i]),
        f.children@[i].kind@ == "identifier"@ ==>
            callee_parts(src, f) == (node_chars(src, f.children@[i]), None::<Seq<char>>, CandidateCallKind::Direct),
{
    reveal_strlit("template_function");
    reveal_strlit("identifier");
    reveal_strlit("scoped_identifier");
    reveal_strlit("qualified_identifier");
    reveal_strlit("field_expression");
    assert("template_function"@[0] != "identifier"@[0]);
    assert("template_function"@[0] != "scoped_identifier"@[0]);
    assert("template_function"@[0] != "qualified_identifier"@[0]);
    assert("template_function"@[0] != "field_expression"@[0]);
    assert(callee_parts(src, f) == callee_parts(src, f.children@[i]));
    if f.children@[i].kind@ == "identifier"@ {
        assert(callee_parts(src, f.children@[i]) == (node_chars(src, f.children@[i]), None::<Seq<char>>, CandidateCallKind::Direct));
    }
}

/// The callee of a call: terminal name, qualifier, syntactic form, and the node
/// holding the name.
fn parse_callee<'a>(src: &[u8], f: &'a SyntaxNode) -> (r: (String, Option<String>, CandidateCallKind, Option<&'a SyntaxNode>))
    ensures
        (r.0@, opt_view(r.1), r.2) == callee_parts(src@, *f),
    decreases f,
{
    proof {
        reveal_strlit("identifier");
        reveal_strlit("scoped_identifier");
        reveal_strlit("qualified_identifier");
        reveal_strlit("field_expression");
        reveal_strlit("template_function");
        reveal_strlit("field");
        reveal_strlit("name");
    }
    if kind_is(f, "identifier") {
        (node_text(src, f), None, CandidateCallKind::Direct, Some(f))
    } else if kind_is(f, "scoped_identifier") || kind_is(f, "qualified_identifier") {
        let full = node_text(src, f);
        let name_node: &SyntaxNode = match child_by_field(f, "name") {
            Some(i) => &f.children[i],
            None => f,
        };
        let (name, q) = split_scoped(full);
        (name, q, CandidateCallKind::Qualified, Some(name_node))
    } else if kind_is(f, "field_expression") {
        match child_by_field(f, "field") {
            Some(i) => (node_text(src, &f.children[i]), None, CandidateCallKind::Member, Some(&f.children[i])),
            None => (String::new(), None, CandidateCallKind::Member, None),
        }
    } else if kind_is(f, "template_function") {
        match child_by_field(f, "name") {
            Some(i) => parse_callee(src, &f.children[i]),
            None => (node_text(src, f), None, CandidateCallKind::Other, Some(f)),
        }
    } else {
        (node_text(src, f), None, CandidateCallKind::Other, Some(f))
    }
}

/// The first `function_declarator` in a subtree, in pre-order.
pub open spec fn first_declarator(n: SyntaxNode) -> Option<SyntaxNode>
    decreases n, 1int, 0int,
{
    if n.kind@ == "function_declarator"@ {
        Some(n)
    } else {
        first_declarator_from(n, 0)
    }
}

/// The first `function_declarator` in the subtrees of the children of `n` from
/// the `i`-th on, in pre-order.
pub open spec fn first_declarator_from(n: SyntaxNode, i: int) -> Option<SyntaxNode>
    decreases n, 0int, n.children@.len() - i,
{
    if 0 <= i < n.children@.len() {
        proof {
            assert(decreases_to!(n => n.children));
            assert(decreases_to!(n.children => n.children@));
            assert(decreases_to!(n.children@ => n.children@[i]));
            assert(decreases_to!(n => n.children@[i]));
        }
        match first_declarator(n.children@[i]) {
            Some(f) => Some(f),
            None => first_declarator_from(n, i + 1),
        }
    } else {
        None
    }
}

/// The first `function_declarator` in a subtree, in pre-order.
fn find_function_declarator<'a>(node: &'a SyntaxNode) -> (r: Option<&'a SyntaxNode>)
    ensures
        match r {
            Some(f) => first_declarator(*node) == Some(*f),
            None => first_declarator(*node) is None,
        },
    decreases node,
{
    proof {
        reveal_strlit("function_declarator");
    }
    if kind_is(node, "function_declarator") {
        return Some(node);
    }
    let n = node.children.len();
    for i in 0..n
        invariant
            n == node.children@.len(),
            node.kind@ != "function_declarator"@,
            first_declarator(*node) == first_declarator_from(*node, i as int),
    {
        proof {
            assert(decreases_to!(*node => node.children));
            assert(decreases_to!(node.children => node.children@));
            assert(decreases_to!(node.children@ => node.children@[i as int]));
            assert(decreases_to!(*node => node.children@[i as int]));
        }
        match find_function_declarator(&node.children[i]) {
            Some(f) => {
                return Some(f);
            },
            None => {},
        }
    }
    None
}

/// The deduplication key of a symbol: file, declaration range, kind.
pub open spec fn symbol_key_code(file: Seq<char>, range: SourceRange, kind: CandidateSymbolKind) -> Seq<u32> {
    enc_path(file) + enc_range(range) + seq![kind.code()]
}

fn symbol_key(file: &str, range: &SourceRange, kind: CandidateSymbolKind) -> (r: Vec<u32>)
    ensures
        r@ == symbol_key_code(file@, *range, kind),
{
    let mut k = path_key(file);
    push_enc_range(&mut k, range);
    k.push(kind.code_of());
    k
}

/// The deduplication key of a call: file, expression range, enclosing symbol, spelling.
pub open spec fn call_key_code(file: Seq<char>, range: SourceRange, caller: CandidateSymbolId, spelling: Seq<char>) -> Seq<u32> {
    enc_path(file) + enc_range(range) + seq![caller.0] + crate::order::enc_str(spelling)
}

fn call_key(file: &str, range: &SourceRange, caller: CandidateSymbolId, spelling: &str) -> (r: Vec<u32>)
    ensures
        r@ == call_key_code(file@, *range, caller, spelling@),
{
    let mut k = path_key(file);
    push_enc_range(&mut k, range);
    k.push(caller.0);
    push_enc_str(&mut k, spelling);
    k
}

fn last_of(v: &Vec<String>) -> (r: Option<String>)
    ensures
        opt_view(r) == (if v@.len() > 0 { Some(v@.last()@) } else { None }),
{
    if v.len() > 0 { Some(v[v.len() - 1].clone()) } else { None }
}

/// Records an include: the header under the including file, and the including
/// file under the header when the header is a project file (looked up beside the
/// including file, then under the source root, after lexical normalization).
fn extract_include(ctx: &FileCtx, idx: &mut DiscoveryIndex, node: &SyntaxNode)
    requires
        old(idx).wf(),
    ensures
        final(idx).wf(),
        final(idx).symbols@ == old(idx).symbols@,
        final(idx).calls@ == old(idx).calls@,
        match crate::syntax::field_index(*node, "path"@) {
            None => *final(idx) == *old(idx),
            Some(p) => include_recorded(ctx.file_path@, ctx.source_root@, ctx.catalog@,
                trim_delims(node_chars(ctx.source@, node.children@[p])), *old(idx), *final(idx)),
        },
{
    proof {
        reveal_strlit("path");
    }
    let p = match child_by_field(node, "path") {
        Some(p) => p,
        None => return,
    };
    let raw = node_text(ctx.source, &node.children[p]);
    let cleaned = trim_include(raw.as_str());
    let fk = path_key(ctx.file_path.as_str());
    let hk = path_key(cleaned.as_str());
    insert_into_set_entry(&mut idx.file_includes, fk, ctx.file_path.clone(), hk, cleaned.clone());
    let local = normalize_lexically(join(dir_of(ctx.file_path.as_str()).as_str(), cleaned.as_str()).as_str());
    let ghost hk_spec = header_key(ctx.catalog@, ctx.file_path@, ctx.source_root@, cleaned@);
    let found = match find_in_catalog(ctx.catalog, local.as_str()) {
        Some(i) => {
            proof {
                assert(in_catalog(ctx.catalog@, local@));
            }
            Some(i)
        },
        None => {
            let under_root = normalize_lexically(join(ctx.source_root.as_str(), cleaned.as_str()).as_str());
            let r = find_in_catalog(ctx.catalog, under_root.as_str());
            proof {
                assert(!in_catalog(ctx.catalog@, local@));
                match r {
                    Some(i) => { assert(in_catalog(ctx.catalog@, under_root@)); },
                    None => { assert(!in_catalog(ctx.catalog@, under_root@)); },
                }
            }
            r
        },
    };
    proof {
        match found {
            Some(i) => { assert(hk_spec == Some(enc_path(ctx.catalog@[i as int].path@))); },
            None => { assert(hk_spec is None); },
        }
    }
    match found {
        Some(i) => {
            let header = ctx.catalog[i].path.clone();
            let hkey = path_key(header.as_str());
            let pk = path_key(ctx.file_path.as_str());
            insert_into_set_entry(&mut idx.include_parents, hkey, header, pk, ctx.file_path.clone());
        },
        None => {},
    }
}

/// The index only grows: every stored symbol and call keeps its position.
pub open spec fn grows(a: DiscoveryIndex, b: DiscoveryIndex) -> bool {
    &&& a.symbols@.len() <= b.symbols@.len()
    &&& a.calls@.len() <= b.calls@.len()
    &&& forall|i: int| 0 <= i < a.symbols@.len() ==> #[trigger] b.symbols@[i] == a.symbols@[i]
    &&& forall|i: int| 0 <= i < a.calls@.len() ==> #[trigger] b.calls@[i] == a.calls@[i]
}

/// A range that covers node `n` of `file`.
pub open spec fn range_of_node(r: SourceRange, file: Seq<char>, n: SyntaxNode) -> bool {
    &&& r.start.file@ == file
    &&& r.start.point == Some(node_range_spec(file, n).1)
    &&& r.end matches Some(e) && e.file@ == file && e.point == Some(node_range_spec(file, n).2)
}

/// The key code of the range covering node `n` of `file`.
pub open spec fn node_range_code(file: Seq<char>, n: SyntaxNode) -> Seq<u32> {
    enc_path(file) + crate::keys::enc_opt_point(Some(node_range_spec(file, n).1)) + seq![1u32]
        + enc_path(file) + crate::keys::enc_opt_point(Some(node_range_spec(file, n).2))
}

/// Declarations inside a class are methods; others are functions.
pub open spec fn scope_kind(sc: Scopes) -> CandidateSymbolKind {
    if sc.class_stack@.len() > 0 { CandidateSymbolKind::Method } else { CandidateSymbolKind::Function }
}

/// The innermost enclosing class, if any.
pub open spec fn owner_of(sc: Scopes) -> Option<Seq<char>> {
    if sc.class_stack@.len() > 0 { Some(sc.class_stack@.last()@) } else { None }
}

/// The deduplication key of a declaration: file, the node's range, kind.
pub open spec fn decl_key(file: Seq<char>, n: SyntaxNode, kind: CandidateSymbolKind) -> Seq<u32> {
    enc_path(file) + node_range_code(file, n) + seq![kind.code()]
}

/// The symbol a declaration yields: the given identifier, the declared name, the
/// enclosing scopes' qualifier, method kind and owner inside a class, the node's
/// range, and whether its syntax is complete.
pub open spec fn declared_symbol_ok(s: CandidateSymbol, id: int, ctx_file: Seq<char>, lang: Language, sc: Scopes,
    node: SyntaxNode, name: Seq<char>, written: Option<Seq<char>>) -> bool {
    &&& s.id.0 == id
    &&& s.language == lang
    &&& s.syntactic_kind == scope_kind(sc)
    &&& s.name@ == name
    &&& opt_view(s.qualifier_hint) == combined_qualifier(sc.scope_stack@, written)
    &&& s.signature_hint is None
    &&& opt_view(s.owner_hint) == owner_of(sc)
    &&& range_of_node(s.declaration, ctx_file, node)
    &&& s.syntax_complete == !node.has_error
}

/// What recording a declaration does: nothing when the pass already holds its
/// key or identifiers are exhausted; otherwise the declared symbol is appended
/// under the next identifier and its key is held.
pub open spec fn declaration_recorded(ctx_file: Seq<char>, lang: Language, sc: Scopes, node: SyntaxNode,
    name: Seq<char>, written: Option<Seq<char>>,
    oi: DiscoveryIndex, ok: BuildKeys, fi: DiscoveryIndex, fk: BuildKeys) -> bool {
    let key = decl_key(ctx_file, node, scope_kind(sc));
    if ok.symbol_keys.contains(key) || oi.symbols@.len() >= 0xFFFF_FFF0 {
        fi == oi && fk == ok
    } else {
        &&& fi.symbols@ == oi.symbols@.push(fi.symbols@.last())
        &&& fi.calls@ == oi.calls@
        &&& declared_symbol_ok(fi.symbols@.last(), oi.symbols@.len() as int + 1, ctx_file, lang, sc, node, name, written)
        &&& fk.symbol_keys.contains(key)
    }
}

/// A definition records nothing: it has no declarator, its declarator names
/// nothing, or its key is new while identifiers are exhausted.
pub open spec fn definition_ignored(file: Seq<char>, src: Seq<u8>, sc: Scopes, node: SyntaxNode, oi: DiscoveryIndex, ok: BuildKeys) -> bool {
    match crate::syntax::field_index(node, "declarator"@) {
        None => true,
        Some(d) => declared_name(src, node.children@[d]).0.len() == 0
            || (!ok.symbol_keys.contains(decl_key(file, node, scope_kind(sc))) && oi.symbols@.len() >= 0xFFFF_FFF0),
    }
}

/// A definition yields a new symbol: its declarator names something, its key is
/// new and identifiers remain.
pub open spec fn definition_fresh(file: Seq<char>, src: Seq<u8>, sc: Scopes, node: SyntaxNode, oi: DiscoveryIndex, ok: BuildKeys) -> bool {
    match crate::syntax::field_index(node, "declarator"@) {
        None => false,
        Some(d) => declared_name(src, node.children@[d]).0.len() > 0
            && !ok.symbol_keys.contains(decl_key(file, node, scope_kind(sc))) && oi.symbols@.len() < 0xFFFF_FFF0,
    }
}

/// The deduplication key of a call: file, the expression's range, the enclosing
/// symbol, the callee's spelling.
pub open spec fn call_node_key(file: Seq<char>, n: SyntaxNode, caller: CandidateSymbolId, spelling: Seq<char>) -> Seq<u32> {
    enc_path(file) + node_range_code(file, n) + seq![caller.0] + crate::order::enc_str(spelling)
}

/// A call expression with a callee name and a new key, while identifiers remain.
pub open spec fn call_fresh(file: Seq<char>, src: Seq<u8>, node: SyntaxNode, caller: CandidateSymbolId,
    oi: DiscoveryIndex, ok: BuildKeys) -> bool {
    match crate::syntax::field_index(node, "function"@) {
        None => false,
        Some(f) => {
            let parts = callee_parts(src, node.children@[f]);
            parts.0.len() > 0 && !ok.call_keys.contains(call_node_key(file, node, caller, parts.0))
                && oi.calls@.len() < 0xFFFF_FFF0
        },
    }
}

/// What walking a node records at the node itself: an include; a function
/// definition's symbol; a function declaration's symbol; a call inside a
/// function body. (Namespaces, classes and other nodes are walked into.)
pub open spec fn node_walked(ctx: FileCtx, sc: Scopes, node: SyntaxNode,
    oi: DiscoveryIndex, ok: BuildKeys, fi: DiscoveryIndex, fk: BuildKeys) -> bool {
    let file = ctx.file_path@;
    let src = ctx.source@;
    &&& node.kind@ == "preproc_include"@ ==> match crate::syntax::field_index(node, "path"@) {
        None => fi == oi && fk == ok,
        Some(p) => fk == ok && fi.symbols@ == oi.symbols@ && fi.calls@ == oi.calls@
            && include_recorded(file, ctx.source_root@, ctx.catalog@, trim_delims(node_chars(src, node.children@[p])), oi, fi),
    }
    &&& node.kind@ == "function_definition"@ && definition_ignored(file, src, sc, node, oi, ok) ==> fi == oi && fk == ok
    &&& node.kind@ == "function_definition"@ && definition_fresh(file, src, sc, node, oi, ok) ==> {
        let d = crate::syntax::field_index(node, "declarator"@)->0;
        let s = fi.symbols@[oi.symbols@.len() as int];
        &&& oi.symbols@.len() < fi.symbols@.len()
        &&& declared_symbol_ok(s, oi.symbols@.len() as int + 1, file, ctx.language, sc, node,
            declared_name(src, node.children@[d]).0, declared_name(src, node.children@[d]).1)
        &&& match crate::syntax::field_index(node, "body"@) {
            Some(b) => s.definition_body matches Some(r) && range_of_node(r, file, node.children@[b]),
            None => s.definition_body is None,
        }
    }
    &&& (node.kind@ == "declaration"@ || node.kind@ == "field_declaration"@ || node.kind@ == "template_declaration"@)
        && first_declarator(node) is Some ==> {
        let f = first_declarator(node)->0;
        &&& declared_name(src, f).0.len() == 0 ==> fi == oi && fk == ok
        &&& declared_name(src, f).0.len() > 0 ==> declaration_recorded(file, ctx.language, sc, node,
            declared_name(src, f).0, declared_name(src, f).1, oi, ok, fi, fk)
    }
    &&& node.kind@ == "call_expression"@ ==> match sc.current_symbol {
        Some(c) => call_fresh(file, src, node, c, oi, ok) ==> {
            let f = crate::syntax::field_index(node, "function"@)->0;
            &&& oi.calls@.len() < fi.calls@.len()
            &&& recorded_call_ok(fi.calls@[oi.calls@.len() as int], oi.calls@.len() as int + 1,
                file, src, node, c, callee_parts(src, node.children@[f]))
        },
        None => true,
    }
}

/// The call a call expression yields: the given identifier and enclosing symbol,
/// the callee's spelling, qualifier and form, the expression's range and text,
/// and whether its syntax is complete.
pub open spec fn recorded_call_ok(c: CandidateCallSite, id: int, ctx_file: Seq<char>, src: Seq<u8>, node: SyntaxNode,
    caller: CandidateSymbolId, parts: (Seq<char>, Option<Seq<char>>, CandidateCallKind)) -> bool {
    &&& c.id.0 == id
    &&& c.caller == caller
    &&& c.callee_spelling@ == parts.0
    &&& opt_view(c.qualifier_hint) == parts.1
    &&& c.syntax_hint == parts.2
    &&& range_of_node(c.expression, ctx_file, node)
    &&& opt_view(c.expression_text) == Some(node_chars(src, node))
    &&& c.syntax_complete == !node.has_error
}

/// Some catalog file has this path (by path key).
pub open spec fn in_catalog(cat: Seq<SourceFile>, p: Seq<char>) -> bool {
    exists|i: int| 0 <= i < cat.len() && enc_path(#[trigger] cat[i].path@) == enc_path(p)
}

/// The key of the project header an include names: looked up beside the
/// including file, then under the source root.
pub open spec fn header_key(cat: Seq<SourceFile>, file: Seq<char>, root: Seq<char>, cleaned: Seq<char>) -> Option<Seq<u32>> {
    let local = lexical_norm(crate::paths::join_spec(crate::paths::dir_of_spec(file), cleaned));
    let under = lexical_norm(crate::paths::join_spec(root, cleaned));
    if in_catalog(cat, local) {
        Some(enc_path(local))
    } else if in_catalog(cat, under) {
        Some(enc_path(under))
    } else {
        None
    }
}

/// What recording an include does: the header joins the includes of the file,
/// and, when it is a project file, the file joins the includers of the header;
/// nothing else changes.
pub open spec fn include_recorded(file: Seq<char>, root: Seq<char>, cat: Seq<SourceFile>, cleaned: Seq<char>,
    oi: DiscoveryIndex, fi: DiscoveryIndex) -> bool {
    &&& forall|k: Seq<u32>, j: Seq<u32>| #[trigger] set_has(fi.file_includes, k, j) <==>
        (set_has(oi.file_includes, k, j) || (k == enc_path(file) && j == enc_path(cleaned)))
    &&& forall|k: Seq<u32>, j: Seq<u32>| #[trigger] set_has(fi.include_parents, k, j) <==>
        (set_has(oi.include_parents, k, j) || (header_key(cat, file, root, cleaned) == Some(k) && j == enc_path(file)))
}

/// Walks a node: records includes, enters namespaces and classes, records function
/// definitions and declarations, and calls inside function bodies.
fn walk_node(ctx: &FileCtx, sc: &mut Scopes, idx: &mut DiscoveryIndex, keys: &mut BuildKeys, node: &SyntaxNode)
    requires
        builder_wf(*old(idx), *old(keys)),
        scopes_ok(*old(sc), *old(idx)),
    ensures
        builder_wf(*final(idx), *final(keys)),
        grows(*old(idx), *final(idx)),
        same_scopes(*final(sc), *old(sc)),
        node_walked(*ctx, *old(sc), *node, *old(idx), *old(keys), *final(idx), *final(keys)),
    decreases node, 2int,
{
    proof {
        reveal_strlit("preproc_include");
        reveal_strlit("namespace_definition");
        reveal_strlit("class_specifier");
        reveal_strlit("struct_specifier");
        reveal_strlit("function_definition");
        reveal_strlit("declaration");
        reveal_strlit("field_declaration");
        reveal_strlit("template_declaration");
        reveal_strlit("call_expression");
        assert("preproc_include"@[0] != "function_definition"@[0]);
        assert("preproc_include"@[0] != "declaration"@[0]);
        assert("preproc_include"@[0] != "field_declaration"@[0]);
        assert("preproc_include"@[0] != "template_declaration"@[0]);
        assert("preproc_include"@[0] != "call_expression"@[0]);
        assert("namespace_definition"@[0] != "function_definition"@[0]);
        assert("namespace_definition"@[0] != "declaration"@[0]);
        assert("namespace_definition"@[0] != "field_declaration"@[0]);
        assert("namespace_definition"@[0] != "template_declaration"@[0]);
        assert("namespace_definition"@[0] != "call_expression"@[0]);
        assert("class_specifier"@[0] != "function_definition"@[0]);
        assert("class_specifier"@[0] != "declaration"@[0]);
        assert("class_specifier"@[0] != "field_declaration"@[0]);
        assert("class_specifier"@[0] != "template_declaration"@[0]);
        assert("class_specifier"@[1] != "call_expression"@[1]);
        assert("struct_specifier"@[0] != "function_definition"@[0]);
        assert("struct_specifier"@[0] != "declaration"@[0]);
        assert("struct_specifier"@[0] != "field_declaration"@[0]);
        assert("struct_specifier"@[0] != "template_declaration"@[0]);
        assert("struct_specifier"@[0] != "call_expression"@[0]);
        assert("function_definition"@[0] != "declaration"@[0]);
        assert("function_definition"@[1] != "field_declaration"@[1]);
        assert("function_definition"@[0] != "template_declaration"@[0]);
        assert("function_definition"@[0] != "call_expression"@[0]);
        assert("declaration"@[0] != "call_expression"@[0]);
        assert("field_declaration"@[0] != "call_expression"@[0]);
        assert("template_declaration"@[0] != "call_expression"@[0]);
    }
    if kind_is(node, "preproc_include") {
        extract_include(ctx, idx, node);
        return;
    }
    if kind_is(node, "namespace_definition") || kind_is(node, "class_specifier") || kind_is(node, "struct_specifier") {
        let is_class = !kind_is(node, "namespace_definition");
        walk_scope(ctx, sc, idx, keys, node, is_class);
        return;
    }
    if kind_is(node, "function_definition") {
        extract_function_definition(ctx, sc, idx, keys, node);
        return;
    } else if kind_is(node, "declaration") || kind_is(node, "field_declaration") || kind_is(node, "template_declaration") {
        match find_function_declarator(node) {
            Some(f) => {
                extract_function_declaration(ctx, sc, idx, keys, node, f);
                return;
            },
            None => {},
        }
    }
    let ghost before_call = *idx;
    if kind_is(node, "call_expression") {
        match sc.current_symbol {
            Some(enclosing) => {
                extract_call_expression(ctx, sc, idx, keys, node, enclosing);
            },
            None => {},
        }
    }
    let ghost called = *idx;
    walk_children(ctx, sc, idx, keys, node);
    proof {
        if node.kind@ == "call_expression"@ {
            match old(sc).current_symbol {
                Some(c) => {
                    if call_fresh(ctx.file_path@, ctx.source@, *node, c, before_call, *old(keys)) {
                        let fk = crate::syntax::field_index(*node, "function"@)->0;
                        assert(idx.calls@[before_call.calls@.len() as int] == called.calls@[before_call.calls@.len() as int]);
                    }
                },
                None => {},
            }
        }
    }
}

/// Walks the body of a namespace or class with its name pushed on the scopes
/// (and on the classes, for a class).
fn walk_scope(ctx: &FileCtx, sc: &mut Scopes, idx: &mut DiscoveryIndex, keys: &mut BuildKeys, node: &SyntaxNode, is_class: bool)
    requires
        builder_wf(*old(idx), *old(keys)),
        scopes_ok(*old(sc), *old(idx)),
    ensures
        builder_wf(*final(idx), *final(keys)),
        grows(*old(idx), *final(idx)),
        same_scopes(*final(sc), *old(sc)),
        match crate::syntax::field_index(*node, "body"@) {
            Some(b) => exists|sc_in: Scopes| #[trigger] scope_entered(sc_in, *old(sc), ctx.source@, *node)
                && children_walked(*ctx, sc_in, node.children@[b].children@, *old(idx), *old(keys), *final(idx), *final(keys)),
            None => *final(idx) == *old(idx) && *final(keys) == *old(keys),
        },
    decreases node, 1int,
{
    let is_class = !kind_is(node, "namespace_definition");
    let name = match child_by_field(node, "name") {
        Some(i) => node_text(ctx.source, &node.children[i]),
        None => String::new(),
    };
    proof {
        reveal_strlit("name");
        assert(name@ == scope_name(ctx.source@, *node));
    }
    let pushed = !name.as_str().is_empty();
    let ghost s0 = *sc;
    if pushed {
        if is_class {
            sc.class_stack.push(name.clone());
        }
        sc.scope_stack.push(name);
    }
    let ghost sc_in = *sc;
    proof {
        let nm = scope_name(ctx.source@, *node);
        assert(pushed == (nm.len() > 0));
        assert(is_class == (node.kind@ != "namespace_definition"@));
        if pushed {
            assert(sc_in.scope_stack@.drop_last() =~= s0.scope_stack@);
            if is_class {
                assert(sc_in.class_stack@.drop_last() =~= s0.class_stack@);
                assert(sc_in.class_stack@.last()@ == nm);
            }
        }
        assert(scope_entered(sc_in, s0, ctx.source@, *node));
    }
    match child_by_field(node, "body") {
        Some(b) => {
            let body = &node.children[b];
            let n = body.children.len();
            let ghost mut ds: Seq<DiscoveryIndex> = seq![*idx];
            let ghost mut ks: Seq<BuildKeys> = seq![*keys];
            let ghost mut scs: Seq<Scopes> = Seq::empty();
            let mut j: usize = 0;
            while j < n
                invariant
                    j <= n,
                    n == body.children@.len(),
                    walked_prefix(*ctx, sc_in, body.children@, j as int, ds, ks, scs),
                    ds[0] == *old(idx),
                    ks[0] == *old(keys),
                    ds[j as int] == *idx,
                    ks[j as int] == *keys,
                    same_scopes(*sc, sc_in),
                    body == node.children@[b as int],
                    builder_wf(*idx, *keys),
                    scopes_ok(*sc, *idx),
                    grows(*old(idx), *idx),
                    pushed ==> sc.scope_stack@ == s0.scope_stack@.push(sc.scope_stack@.last()),
                    pushed && is_class ==> sc.class_stack@ == s0.class_stack@.push(sc.class_stack@.last()),
                    !pushed ==> sc.scope_stack@ == s0.scope_stack@,
                    !(pushed && is_class) ==> sc.class_stack@ == s0.class_stack@,
                    sc.current_symbol == s0.current_symbol,
                    (b as int) < node.children@.len(),
                decreases n - j,
            {
                proof {
                    assert(decreases_to!(*node => node.children));
                    assert(decreases_to!(node.children => node.children@));
                    assert(decreases_to!(node.children@ => node.children@[b as int]));
                    assert(decreases_to!(*body => body.children));
                    assert(decreases_to!(body.children => body.children@));
                    assert(decreases_to!(body.children@ => body.children@[j as int]));
                    assert(decreases_to!(*node => body.children@[j as int]));
                }
                let ghost s_cur = *sc;
                walk_node(ctx, sc, idx, keys, &body.children[j]);
                proof {
                    lemma_walked_prefix_push(*ctx, sc_in, body.children@, j as int, ds, ks, scs, s_cur, *idx, *keys);
                    ds = ds.push(*idx);
                    ks = ks.push(*keys);
                    scs = scs.push(s_cur);
                }
                j = j + 1;
            }
            proof {
                assert forall|t: int| 0 <= t < body.children@.len() implies #[trigger] grows(ds[t], ds[t + 1])
                    && same_scopes(scs[t], sc_in) && node_walked(*ctx, scs[t], body.children@[t], ds[t], ks[t], ds[t + 1], ks[t + 1]) by {
                    assert(grows(ds[t], ds[t + 1]));
                }
                assert(j == n);
                assert(ds.len() == body.children@.len() + 1 && ks.len() == ds.len() && scs.len() == body.children@.len());
                assert(ds[0] == *old(idx) && ks[0] == *old(keys));
                assert(ds[body.children@.len() as int] == *idx && ks[body.children@.len() as int] == *keys);
                assert(walked_along(*ctx, sc_in, body.children@, *old(idx), *old(keys), *idx, *keys, ds, ks, scs));
                assert(children_walked(*ctx, sc_in, body.children@, *old(idx), *old(keys), *idx, *keys));
            }
        },
        None => {},
    }
    if pushed {
        if is_class {
            sc.class_stack.pop();
        }
        sc.scope_stack.pop();
    }
    proof {
        assert(sc.scope_stack@ =~= s0.scope_stack@);
        assert(sc.class_stack@ =~= s0.class_stack@);
    }
}

/// Walks the children of a node in order, with the scopes unchanged.
fn walk_children(ctx: &FileCtx, sc: &mut Scopes, idx: &mut DiscoveryIndex, keys: &mut BuildKeys, node: &SyntaxNode)
    requires
        builder_wf(*old(idx), *old(keys)),
        scopes_ok(*old(sc), *old(idx)),
    ensures
        builder_wf(*final(idx), *final(keys)),
        grows(*old(idx), *final(idx)),
        same_scopes(*final(sc), *old(sc)),
        children_walked(*ctx, *old(sc), node.children@, *old(idx), *old(keys), *final(idx), *final(keys)),
    decreases node, 1int,
{
    let n = node.children.len();
    let ghost s0 = *sc;
    let ghost mut ds: Seq<DiscoveryIndex> = seq![*idx];
    let ghost mut ks: Seq<BuildKeys> = seq![*keys];
    let ghost mut scs: Seq<Scopes> = Seq::empty();
    let mut j: usize = 0;
    while j < n
        invariant
            j <= n,
            n == node.children@.len(),
            walked_prefix(*ctx, s0, node.children@, j as int, ds, ks, scs),
            ds[0] == *old(idx),
            ks[0] == *old(keys),
            ds[j as int] == *idx,
            ks[j as int] == *keys,
            builder_wf(*idx, *keys),
            scopes_ok(*sc, *idx),
            grows(*old(idx), *idx),
            same_scopes(*sc, s0),
            same_scopes(s0, *old(sc)),
        decreases n - j,
    {
        proof {
            assert(decreases_to!(*node => node.children));
            assert(decreases_to!(node.children => node.children@));
            assert(decreases_to!(node.children@ => node.children@[j as int]));
            assert(decreases_to!(*node => node.children@[j as int]));
        }
        let ghost d0 = *idx;
        let ghost k0 = *keys;
        let ghost s_in = *sc;
        walk_node(ctx, sc, idx, keys, &node.children[j]);
        proof {
            lemma_walked_prefix_push(*ctx, s0, node.children@, j as int, ds, ks, scs, s_in, *idx, *keys);
            ds = ds.push(*idx);
            ks = ks.push(*keys);
            scs = scs.push(s_in);
        }
        j = j + 1;
    }
    proof {
        assert forall|t: int| 0 <= t < scs.len() implies same_scopes(#[trigger] scs[t], *old(sc)) by {
            assert(grows(ds[t], ds[t + 1]));
            assert(same_scopes(scs[t], s0));
        }
        assert(walked_prefix(*ctx, s0, node.children@, n as int, ds, ks, scs));
        assert forall|t: int| 0 <= t < node.children@.len() implies #[trigger] grows(ds[t], ds[t + 1])
            && same_scopes(scs[t], *old(sc)) && node_walked(*ctx, scs[t], node.children@[t], ds[t], ks[t], ds[t + 1], ks[t + 1]) by {
            assert(grows(ds[t], ds[t + 1]));
        }
        assert(walked_along(*ctx, *old(sc), node.children@, *old(idx), *old(keys), *idx, *keys, ds, ks, scs));
    }
}

/// Finds or creates the candidate symbol of a declaration; `None` when the
/// identifier space is exhausted.
fn declare_symbol(ctx: &FileCtx, sc: &Scopes, idx: &mut DiscoveryIndex, keys: &mut BuildKeys, node: &SyntaxNode,
    name: String, written: Option<String>, body_range: Option<SourceRange>) -> (r: Option<CandidateSymbolId>)
    requires
        builder_wf(*old(idx), *old(keys)),
    ensures
        builder_wf(*final(idx), *final(keys)),
        grows(*old(idx), *final(idx)),
        r matches Some(id) ==> valid_id(id.0, final(idx).symbols@.len()),
        declaration_recorded(ctx.file_path@, ctx.language, *sc, *node, name@, opt_view(written),
            *old(idx), *old(keys), *final(idx), *final(keys)),
        old(keys).symbol_keys.contains(decl_key(ctx.file_path@, *node, scope_kind(*sc)))
            ==> r == Some(crate::order::value_of(old(keys).symbol_keys, decl_key(ctx.file_path@, *node, scope_kind(*sc)))),
        !old(keys).symbol_keys.contains(decl_key(ctx.file_path@, *node, scope_kind(*sc))) && old(idx).symbols@.len() >= 0xFFFF_FFF0
            ==> r is None,
        !old(keys).symbol_keys.contains(decl_key(ctx.file_path@, *node, scope_kind(*sc))) && old(idx).symbols@.len() < 0xFFFF_FFF0
            ==> r == Some(CandidateSymbolId((old(idx).symbols@.len() + 1) as u32))
                && final(idx).symbols@.last().definition_body == body_range,
{
    let decl_range = node_range(ctx.file_path.as_str(), node);
    let qualifier = combine_qualifier(&sc.scope_stack, written);
    let kind = if sc.class_stack.len() > 0 { CandidateSymbolKind::Method } else { CandidateSymbolKind::Function };
    let skey = symbol_key(ctx.file_path.as_str(), &decl_range, kind);
    match keys.symbol_keys.find(skey.as_slice()) {
        Ok(i) => {
            let id = *keys.symbol_keys.value_at(i);
            proof {
                crate::order::lemma_pos_of(keys.symbol_keys, i as int);
            }
            Some(id)
        },
        Err(_) => {
            if idx.symbols.len() >= 0xFFFF_FFF0usize {
                return None;
            }
            let id = CandidateSymbolId((idx.symbols.len() + 1) as u32);
            let cand = CandidateSymbol {
                id,
                language: ctx.language,
                syntactic_kind: kind,
                name,
                qualifier_hint: qualifier,
                signature_hint: None,
                owner_hint: last_of(&sc.class_stack),
                declaration: decl_range,
                definition_body: body_range,
                syntax_complete: !node.has_error,
            };
            register_symbol(idx, cand);
            let ghost ok = *keys;
            let pos = keys.symbol_keys.insert(skey, id);
            proof {
                assert forall|i: int| 0 <= i < keys.symbol_keys.size() implies
                    valid_id((#[trigger] keys.symbol_keys.vals@[i]).0, idx.symbols@.len()) by {
                    if i != pos {
                        if i < pos {
                            assert(keys.symbol_keys.vals@[i] == ok.symbol_keys.vals@[i]);
                        } else {
                            assert(keys.symbol_keys.vals@[i] == ok.symbol_keys.vals@[i - 1]);
                        }
                    }
                }
                assert(keys.symbol_keys.key_view()[pos as int] == decl_key(ctx.file_path@, *node, scope_kind(*sc)));
                assert(keys.symbol_keys.contains(decl_key(ctx.file_path@, *node, scope_kind(*sc))));
            }
            Some(id)
        },
    }
}

/// A function definition: its symbol, then the calls in its body.
fn extract_function_definition(ctx: &FileCtx, sc: &mut Scopes, idx: &mut DiscoveryIndex, keys: &mut BuildKeys, node: &SyntaxNode)
    requires
        builder_wf(*old(idx), *old(keys)),
        scopes_ok(*old(sc), *old(idx)),
    ensures
        builder_wf(*final(idx), *final(keys)),
        grows(*old(idx), *final(idx)),
        same_scopes(*final(sc), *old(sc)),
        definition_ignored(ctx.file_path@, ctx.source@, *old(sc), *node, *old(idx), *old(keys))
            ==> *final(idx) == *old(idx) && *final(keys) == *old(keys),
        definition_fresh(ctx.file_path@, ctx.source@, *old(sc), *node, *old(idx), *old(keys)) ==> {
            let d = crate::syntax::field_index(*node, "declarator"@)->0;
            let s = final(idx).symbols@[old(idx).symbols@.len() as int];
            &&& old(idx).symbols@.len() < final(idx).symbols@.len()
            &&& declared_symbol_ok(s, old(idx).symbols@.len() as int + 1, ctx.file_path@, ctx.language, *old(sc), *node,
                declared_name(ctx.source@, node.children@[d]).0, declared_name(ctx.source@, node.children@[d]).1)
            &&& match crate::syntax::field_index(*node, "body"@) {
                Some(b) => s.definition_body matches Some(r) && range_of_node(r, ctx.file_path@, node.children@[b]),
                None => s.definition_body is None,
            }
        },
    decreases node, 1int,
{
    proof {
        reveal_strlit("declarator");
        reveal_strlit("body");
    }
    let d = match child_by_field(node, "declarator") {
        Some(d) => d,
        None => return,
    };
    let (name, written) = declarator_name(ctx.source, &node.children[d]);
    if name.as_str().is_empty() {
        return;
    }
    let body = child_by_field(node, "body");
    let body_range = match body {
        Some(b) => Some(node_range(ctx.file_path.as_str(), &node.children[b])),
        None => None,
    };
    let id = match declare_symbol(ctx, sc, idx, keys, node, name, written, body_range) {
        Some(id) => id,
        None => return,
    };
    let ghost declared = *idx;
    let prev = sc.current_symbol;
    sc.current_symbol = Some(id);
    match body {
        Some(b) => {
            let body_node = &node.children[b];
            let n = body_node.children.len();
            let ghost s0 = *sc;
            for j in 0..n
                invariant
                    n == body_node.children@.len(),
                    body_node == node.children@[b as int],
                    builder_wf(*idx, *keys),
                    scopes_ok(*sc, *idx),
                    grows(*old(idx), *idx),
                    grows(declared, *idx),
                    same_scopes(*sc, s0),
                    s0.current_symbol == Some(id),
                    s0.scope_stack@ == old(sc).scope_stack@,
                    s0.class_stack@ == old(sc).class_stack@,
                    (b as int) < node.children@.len(),
            {
                    proof {
                        assert(decreases_to!(*node => node.children));
                        assert(decreases_to!(node.children => node.children@));
                        assert(decreases_to!(node.children@ => node.children@[b as int]));
                        assert(decreases_to!(*body_node => body_node.children));
                        assert(decreases_to!(body_node.children => body_node.children@));
                        assert(decreases_to!(body_node.children@ => body_node.children@[j as int]));
                        assert(decreases_to!(*node => body_node.children@[j as int]));
                    }
                walk_node(ctx, sc, idx, keys, &body_node.children[j]);
            }
        },
        None => {},
    }
    sc.current_symbol = prev;
    proof {
        if definition_fresh(ctx.file_path@, ctx.source@, *old(sc), *node, *old(idx), *old(keys)) {
            assert(idx.symbols@[old(idx).symbols@.len() as int] == declared.symbols@[old(idx).symbols@.len() as int]);
        }
    }
}

/// A function declaration: its symbol.
fn extract_function_declaration(ctx: &FileCtx, sc: &Scopes, idx: &mut DiscoveryIndex, keys: &mut BuildKeys, node: &SyntaxNode, func: &SyntaxNode)
    requires
        builder_wf(*old(idx), *old(keys)),
    ensures
        builder_wf(*final(idx), *final(keys)),
        grows(*old(idx), *final(idx)),
        declared_name(ctx.source@, *func).0.len() == 0 ==> *final(idx) == *old(idx) && *final(keys) == *old(keys),
        declared_name(ctx.source@, *func).0.len() > 0 ==> declaration_recorded(ctx.file_path@, ctx.language, *sc, *node,
            declared_name(ctx.source@, *func).0, declared_name(ctx.source@, *func).1, *old(idx), *old(keys), *final(idx), *final(keys)),
        declared_name(ctx.source@, *func).0.len() > 0 && !old(keys).symbol_keys.contains(decl_key(ctx.file_path@, *node, scope_kind(*sc)))
            && old(idx).symbols@.len() < 0xFFFF_FFF0 ==> final(idx).symbols@.last().definition_body is None,
{
    let (name, written) = declarator_name(ctx.source, func);
    if name.as_str().is_empty() {
        return;
    }
    let _ = declare_symbol(ctx, sc, idx, keys, node, name, written, None);
}

/// A call inside a function body: its candidate call, then nested calls in its
/// arguments.
fn extract_call_expression(ctx: &FileCtx, sc: &mut Scopes, idx: &mut DiscoveryIndex, keys: &mut BuildKeys, node: &SyntaxNode, caller: CandidateSymbolId)
    requires
        builder_wf(*old(idx), *old(keys)),
        scopes_ok(*old(sc), *old(idx)),
        valid_id(caller.0, old(idx).symbols@.len()),
    ensures
        builder_wf(*final(idx), *final(keys)),
        grows(*old(idx), *final(idx)),
        same_scopes(*final(sc), *old(sc)),
        match crate::syntax::field_index(*node, "function"@) {
            None => *final(idx) == *old(idx) && *final(keys) == *old(keys),
            Some(f) => {
                let parts = callee_parts(ctx.source@, node.children@[f]);
                &&& parts.0.len() == 0 ==> *final(idx) == *old(idx) && *final(keys) == *old(keys)
                &&& parts.0.len() > 0 && !old(keys).call_keys.contains(call_node_key(ctx.file_path@, *node, caller, parts.0))
                    && old(idx).calls@.len() < 0xFFFF_FFF0 ==> {
                    &&& old(idx).calls@.len() < final(idx).calls@.len()
                    &&& recorded_call_ok(final(idx).calls@[old(idx).calls@.len() as int], old(idx).calls@.len() as int + 1,
                        ctx.file_path@, ctx.source@, *node, caller, parts)
                }
            },
        },
    decreases node, 1int,
{
    proof {
        reveal_strlit("function");
        reveal_strlit("arguments");
    }
    let f = match child_by_field(node, "function") {
        Some(f) => f,
        None => return,
    };
    let (spelling, qualifier, hint, callee_node) = parse_callee(ctx.source, &node.children[f]);
    if spelling.as_str().is_empty() {
        return;
    }
    let expr_range = node_range(ctx.file_path.as_str(), node);
    let ckey = call_key(ctx.file_path.as_str(), &expr_range, caller, spelling.as_str());
    if keys.call_keys.find(ckey.as_slice()).is_err() && idx.calls.len() < 0xFFFF_FFF0usize {
        let id = CandidateCallId((idx.calls.len() + 1) as u32);
        let callee_location = match callee_node {
            Some(cn) => Some(node_range(ctx.file_path.as_str(), cn).start),
            None => None,
        };
        let call = CandidateCallSite {
            id,
            caller,
            callee_spelling: spelling,
            callee_location,
            qualifier_hint: qualifier,
            expression: expr_range,
            expression_text: Some(node_text(ctx.source, node)),
            syntax_hint: hint,
            syntax_complete: !node.has_error,
        };
        register_call(idx, call);
        let _ = keys.call_keys.insert(ckey, id);
    }
    let ghost recorded = *idx;
    match child_by_field(node, "arguments") {
        Some(a) => {
            let args = &node.children[a];
            let n = args.children.len();
            let ghost s0 = *sc;
            for j in 0..n
                invariant
                    n == args.children@.len(),
                    args == node.children@[a as int],
                    builder_wf(*idx, *keys),
                    scopes_ok(*sc, *idx),
                    grows(*old(idx), *idx),
                    grows(recorded, *idx),
                    same_scopes(*sc, s0),
                    same_scopes(s0, *old(sc)),
                    (a as int) < node.children@.len(),
            {
                    proof {
                        assert(decreases_to!(*node => node.children));
                        assert(decreases_to!(node.children => node.children@));
                        assert(decreases_to!(node.children@ => node.children@[a as int]));
                        assert(decreases_to!(*args => args.children));
                        assert(decreases_to!(args.children => args.children@));
                        assert(decreases_to!(args.children@ => args.children@[j as int]));
                        assert(decreases_to!(*node => args.children@[j as int]));
                    }
                walk_node(ctx, sc, idx, keys, &args.children[j]);
            }
        },
        None => {},
    }
    proof {
        if recorded.calls@.len() > old(idx).calls@.len() {
            assert(idx.calls@[old(idx).calls@.len() as int] == recorded.calls@[old(idx).calls@.len() as int]);
        }
    }
}

/// Records the candidates of one parsed file in the index.
pub fn index_syntax_tree(ctx: &FileCtx, idx: &mut DiscoveryIndex, keys: &mut BuildKeys, root: &SyntaxNode)
    requires
        builder_wf(*old(idx), *old(keys)),
    ensures
        builder_wf(*final(idx), *final(keys)),
        grows(*old(idx), *final(idx)),
        root_walked(*ctx, *root, *old(idx), *old(keys), *final(idx), *final(keys)),
{
    let mut sc = Scopes { scope_stack: Vec::new(), class_stack: Vec::new(), current_symbol: None };
    let ghost sc0 = sc;
    walk_node(ctx, &mut sc, idx, keys, root);
    proof {
        assert(node_walked(*ctx, sc0, *root, *old(idx), *old(keys), *idx, *keys));
    }
}

/// The nodes `kids` were walked one after the other, in scopes equal to `sc`,
/// from index `oi` and keys `ok` to `fi` and `fk`: each walk continues the
/// index the previous one left.
pub open spec fn children_walked(ctx: FileCtx, sc: Scopes, kids: Seq<SyntaxNode>,
    oi: DiscoveryIndex, ok: BuildKeys, fi: DiscoveryIndex, fk: BuildKeys) -> bool {
    exists|ds: Seq<DiscoveryIndex>, ks: Seq<BuildKeys>, scs: Seq<Scopes>|
        #[trigger] walked_along(ctx, sc, kids, oi, ok, fi, fk, ds, ks, scs)
}

/// The walk of `kids` went through the indexes `ds`, keys `ks` and scopes `scs`.
pub open spec fn walked_along(ctx: FileCtx, sc: Scopes, kids: Seq<SyntaxNode>,
    oi: DiscoveryIndex, ok: BuildKeys, fi: DiscoveryIndex, fk: BuildKeys,
    ds: Seq<DiscoveryIndex>, ks: Seq<BuildKeys>, scs: Seq<Scopes>) -> bool {
    &&& ds.len() == kids.len() + 1
    &&& ks.len() == ds.len()
    &&& scs.len() == kids.len()
    &&& ds[0] == oi
    &&& ks[0] == ok
    &&& ds[kids.len() as int] == fi
    &&& ks[kids.len() as int] == fk
    &&& forall|j: int| 0 <= j < kids.len() ==> #[trigger] grows(ds[j], ds[j + 1])
        && same_scopes(scs[j], sc) && node_walked(ctx, scs[j], kids[j], ds[j], ks[j], ds[j + 1], ks[j + 1])
}

/// The name a namespace, class or struct node declares (empty when it has none).
pub open spec fn scope_name(src: Seq<u8>, node: SyntaxNode) -> Seq<char> {
    match crate::syntax::field_index(node, "name"@) {
        Some(i) => node_chars(src, node.children@[i]),
        None => Seq::empty(),
    }
}

/// `inner` are the scopes inside `node` entered from `outer`: a named
/// namespace, class or struct adds its name to the scope stack (and a class or
/// struct to the class stack); the current symbol stays.
pub open spec fn scope_entered(inner: Scopes, outer: Scopes, src: Seq<u8>, node: SyntaxNode) -> bool {
    let name = scope_name(src, node);
    let is_class = node.kind@ != "namespace_definition"@;
    &&& inner.current_symbol == outer.current_symbol
    &&& name.len() > 0 ==> inner.scope_stack@.len() == outer.scope_stack@.len() + 1
        && inner.scope_stack@.drop_last() == outer.scope_stack@ && inner.scope_stack@.last()@ == name
    &&& name.len() == 0 ==> inner.scope_stack@ == outer.scope_stack@
    &&& name.len() > 0 && is_class ==> inner.class_stack@.len() == outer.class_stack@.len() + 1
        && inner.class_stack@.drop_last() == outer.class_stack@ && inner.class_stack@.last()@ == name
    &&& !(name.len() > 0 && is_class) ==> inner.class_stack@ == outer.class_stack@
}

/// The first `j` nodes of `kids` were walked one after the other along `ds`,
/// `ks`, in scopes `scs` equal to `sc`.
pub open spec fn walked_prefix(ctx: FileCtx, sc: Scopes, kids: Seq<SyntaxNode>, j: int,
    ds: Seq<DiscoveryIndex>, ks: Seq<BuildKeys>, scs: Seq<Scopes>) -> bool {
    &&& ds.len() == j + 1
    &&& ks.len() == j + 1
    &&& scs.len() == j
    &&& forall|t: int| 0 <= t < j ==> #[trigger] grows(ds[t], ds[t + 1])
        && same_scopes(scs[t], sc) && node_walked(ctx, scs[t], kids[t], ds[t], ks[t], ds[t + 1], ks[t + 1])
}

/// One more node walked extends a walked prefix.
proof fn lemma_walked_prefix_push(ctx: FileCtx, sc: Scopes, kids: Seq<SyntaxNode>, j: int,
    ds: Seq<DiscoveryIndex>, ks: Seq<BuildKeys>, scs: Seq<Scopes>, s: Scopes, b: DiscoveryIndex, kb: BuildKeys)
    requires
        walked_prefix(ctx, sc, kids, j, ds, ks, scs),
        0 <= j < kids.len(),
        grows(ds[j], b),
        same_scopes(s, sc),
        node_walked(ctx, s, kids[j], ds[j], ks[j], b, kb),
    ensures
        walked_prefix(ctx, sc, kids, j + 1, ds.push(b), ks.push(kb), scs.push(s)),
{
    let nd = ds.push(b);
    let nk = ks.push(kb);
    let ns = scs.push(s);
    assert forall|t: int| 0 <= t < j + 1 implies #[trigger] grows(nd[t], nd[t + 1])
        && same_scopes(ns[t], sc) && node_walked(ctx, ns[t], kids[t], nd[t], nk[t], nd[t + 1], nk[t + 1]) by {
        if t < j {
            assert(nd[t] == ds[t] && nd[t + 1] == ds[t + 1] && nk[t] == ks[t] && nk[t + 1] == ks[t + 1] && ns[t] == scs[t]);
            assert(grows(ds[t], ds[t + 1]));
        } else {
            assert(nd[t] == ds[j] && nd[t + 1] == b && nk[t] == ks[j] && nk[t + 1] == kb && ns[t] == s);
        }
    }
}

/// Walking nodes one after the other walks each of them: the walk of every node
/// of `kids` lies between the start and the end of the whole walk, and the index
/// only grows along the way. So whatever a body child's walk records (a method
/// defined inside a struct, the calls in its body), the walk of its scope records.
pub proof fn law_children_walk_each(ctx: FileCtx, sc: Scopes, kids: Seq<SyntaxNode>,
    oi: DiscoveryIndex, ok: BuildKeys, fi: DiscoveryIndex, fk: BuildKeys, j: int)
    requires
        children_walked(ctx, sc, kids, oi, ok, fi, fk),
        0 <= j < kids.len(),
    ensures
        exists|a: DiscoveryIndex, ka: BuildKeys, b: DiscoveryIndex, kb: BuildKeys, s: Scopes|
            #[trigger] node_walked(ctx, s, kids[j], a, ka, b, kb) && same_scopes(s, sc) && grows(oi, a) && grows(a, b) && grows(b, fi),
{
    let (ds, ks, scs) = choose|ds: Seq<DiscoveryIndex>, ks: Seq<BuildKeys>, scs: Seq<Scopes>|
        #[trigger] walked_along(ctx, sc, kids, oi, ok, fi, fk, ds, ks, scs);
    lemma_grows_along(ds, 0, j);
    lemma_grows_along(ds, j + 1, kids.len() as int);
    assert(grows(ds[j], ds[j + 1]));
    assert(node_walked(ctx, scs[j], kids[j], ds[j], ks[j], ds[j + 1], ks[j + 1]));
}

/// Growth along a chain of indexes, each growing the previous one.
proof fn lemma_grows_along(ds: Seq<DiscoveryIndex>, a: int, b: int)
    requires
        0 <= a <= b < ds.len(),
        forall|j: int| 0 <= j < ds.len() - 1 ==> #[trigger] grows(ds[j], ds[j + 1]),
    ensures
        grows(ds[a], ds[b]),
    decreases b - a,
{
    if a < b {
        lemma_grows_along(ds, a, b - 1);
        assert(grows(ds[b - 1], ds[b - 1 + 1]));
        assert forall|i: int| 0 <= i < ds[a].symbols@.len() implies #[trigger] ds[b].symbols@[i] == ds[a].symbols@[i] by {
            assert(ds[b - 1].symbols@[i] == ds[a].symbols@[i]);
        }
        assert forall|i: int| 0 <= i < ds[a].calls@.len() implies #[trigger] ds[b].calls@[i] == ds[a].calls@[i] by {
            assert(ds[b - 1].calls@[i] == ds[a].calls@[i]);
        }
    }
}

/// The walk of a file's root, outside any scope or function body.
pub open spec fn root_walked(ctx: FileCtx, root: SyntaxNode, oi: DiscoveryIndex, ok: BuildKeys, fi: DiscoveryIndex, fk: BuildKeys) -> bool {
    exists|sc: Scopes| sc.scope_stack@.len() == 0 && sc.class_stack@.len() == 0 && sc.current_symbol is None
        && #[trigger] node_walked(ctx, sc, root, oi, ok, fi, fk)
}

} // verus!
