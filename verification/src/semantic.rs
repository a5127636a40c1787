//! The semantic verification contract: what a back end (Clang, or a test double)
//! is asked and what it answers, and the positions the back end needs from
//! syntactic call candidates.
use vstd::prelude::*;
use crate::diagnostic::AnalysisIssue;
use crate::discovery::DiscoveryIndex;
use crate::model::{CallEdge, CallEdgeId, CallKind, CandidateCallId, CandidateCallSite, CandidateSymbolId, CompilationKey,
    Confidence, LineColumn, Symbol, VerificationEvidence, VerificationReason};
use crate::order::{OrdMap, value_of};
use crate::keys::compilation_key_key;
use crate::diagnostic::{join_with, join_strings};
use crate::project::ProjectContext;
use vstd::utf8::encode_utf8;

verus! {

/// What resolving candidate symbols gave.
#[derive(Debug, Clone, Default)]
pub struct ResolutionBatch {
    /// Canonical symbols resolved
    pub symbols: Vec<Symbol>,
    /// Issues met
    pub issues: Vec<AnalysisIssue>,
    /// Contexts that could not be analysed
    pub failed_contexts: usize,
    /// Contexts that were analysed normally
    pub checked_contexts: usize,
}

/// A batch of candidate calls to verify in one compilation context.
#[derive(Debug, Clone)]
pub struct VerificationBatch {
    /// Compilation context to use
    pub context: CompilationKey,
    /// Candidate symbols concerned
    pub symbols: Vec<CandidateSymbolId>,
    /// Candidate calls to verify
    pub calls: Vec<CandidateCallId>,
}

/// What verifying a batch gave.
#[derive(Debug, Default)]
pub struct VerificationResult {
    /// Verified edges
    pub edges: Vec<CallEdge>,
    /// Issues met
    pub issues: Vec<AnalysisIssue>,
    /// Caller and callee symbols met while verifying
    pub symbols: Vec<Symbol>,
    /// Whether the context was analysed normally
    pub context_checked: bool,
}

/// A semantic back end. Implementations decide freely what they answer; the query
/// engine's results are stated for every answer.
pub trait SemanticProvider {
    /// Resolves candidate symbols into canonical symbols.
    fn resolve_symbols(
        &mut self,
        project: &ProjectContext,
        discovery: &DiscoveryIndex,
        candidates: &[CandidateSymbolId],
    ) -> ResolutionBatch;

    /// Verifies a batch of candidate calls in one compilation context.
    fn verify_calls(
        &mut self,
        project: &ProjectContext,
        discovery: &DiscoveryIndex,
        batch: VerificationBatch,
    ) -> VerificationResult;
}

/// The byte offset of the first `(` in `b`, or its length when there is none.
pub open spec fn callable_end(b: Seq<u8>) -> nat
    decreases b.len(),
{
    if b.len() == 0 {
        0
    } else if b[0] == 40u8 {
        0
    } else {
        1 + callable_end(b.drop_first())
    }
}

/// Whether `p` occurs in `s` at byte offset `i`.
pub open spec fn bytes_at(s: Seq<u8>, p: Seq<u8>, i: int) -> bool {
    0 <= i && i + p.len() <= s.len() && s.subrange(i, i + p.len()) == p
}

/// The last byte offset at which `p` occurs in `s`.
pub open spec fn last_bytes_at(s: Seq<u8>, p: Seq<u8>) -> Option<int> {
    if exists|i: int| bytes_at(s, p, i) {
        Some(choose|i: int| bytes_at(s, p, i) && forall|j: int| bytes_at(s, p, j) ==> j <= i)
    } else {
        None
    }
}

/// The number of newline bytes in `b`.
pub open spec fn newlines(b: Seq<u8>) -> nat
    decreases b.len(),
{
    if b.len() == 0 {
        0
    } else {
        (if b.last() == 10u8 { 1nat } else { 0nat }) + newlines(b.drop_last())
    }
}

/// The number of bytes after the last newline of `b` (all of them when there is none).
pub open spec fn tail_after_newline(b: Seq<u8>) -> nat
    decreases b.len(),
{
    if b.len() == 0 {
        0
    } else if b.last() == 10u8 {
        0
    } else {
        1 + tail_after_newline(b.drop_last())
    }
}

/// `a + b` saturated at `u32::MAX`.
pub open spec fn sat_add_u32(a: int, b: int) -> u32 {
    if a + b > u32::MAX { u32::MAX } else { (a + b) as u32 }
}

/// The 1-based position of the callee's name in a call expression: the last
/// occurrence of the spelling before the argument list, counted in bytes from the
/// expression's start.
pub open spec fn callee_point_spec(call: CandidateCallSite) -> Option<LineColumn> {
    match (call.expression.start.point, call.expression_text) {
        (Some(start), Some(text)) => {
            let b = encode_utf8(text@);
            let callable = b.take(callable_end(b) as int);
            match last_bytes_at(callable, encode_utf8(call.callee_spelling@)) {
                Some(off) => {
                    let prefix = b.take(off);
                    let nl = newlines(prefix);
                    if nl == 0 {
                        Some(LineColumn { line: start.line, column: sat_add_u32(start.column as int, off % 0x1_0000_0000) })
                    } else {
                        Some(LineColumn {
                            line: sat_add_u32(start.line as int, nl as int % 0x1_0000_0000),
                            column: ((tail_after_newline(prefix) % 0x1_0000_0000 + 1) % 0x1_0000_0000) as u32,
                        })
                    }
                },
                None => None,
            }
        },
        _ => None,
    }
}

proof fn lemma_callable_end(b: Seq<u8>, e: int)
    requires
        0 <= e <= b.len(),
        forall|k: int| 0 <= k < e ==> b[k] != 40u8,
        e == b.len() || b[e] == 40u8,
    ensures
        callable_end(b) == e,
    decreases b.len(),
{
    if b.len() > 0 && b[0] != 40u8 {
        assert(e > 0);
        lemma_callable_end(b.drop_first(), e - 1);
    }
}

proof fn lemma_last_unique(s: Seq<u8>, p: Seq<u8>, i: int)
    requires
        bytes_at(s, p, i),
        forall|j: int| bytes_at(s, p, j) ==> j <= i,
    ensures
        last_bytes_at(s, p) == Some(i),
{
    let c = choose|k: int| bytes_at(s, p, k) && forall|j: int| bytes_at(s, p, j) ==> j <= k;
    assert(bytes_at(s, p, c) && forall|j: int| bytes_at(s, p, j) ==> j <= c);
    assert(c <= i && i <= c);
}

fn bytes_match_at(s: &[u8], p: &[u8], i: usize) -> (r: bool)
    requires
        i + p@.len() <= s@.len(),
    ensures
        r == bytes_at(s@, p@, i as int),
{
    let m = p.len();
    let mut k: usize = 0;
    while k < m
        invariant
            m == p@.len(),
            s@.len() == s.len(),
            i + m <= s@.len(),
            k <= m,
            forall|t: int| 0 <= t < k ==> s@[i + t] == p@[t],
        decreases m - k,
    {
        if s[i + k] != p[k] {
            assert(s@.subrange(i as int, i + m)[k as int] != p@[k as int]);
            return false;
        }
        k = k + 1;
    }
    assert(s@.subrange(i as int, i + m) =~= p@);
    true
}

/// Where the callee's name starts in a call candidate: the last occurrence of the
/// spelling before the argument list, as a 1-based line and column counted in bytes
/// from the start of the call expression. `None` when the expression has no
/// position or text, or the spelling does not occur before the arguments.
pub fn callee_spelling_point(call_site: &CandidateCallSite) -> (r: Option<LineColumn>)
    ensures
        r == callee_point_spec(*call_site),
{
    let start = match call_site.expression.start.point {
        Some(p) => p,
        None => return None,
    };
    let text = match &call_site.expression_text {
        Some(t) => t,
        None => return None,
    };
    let b = text.as_str().as_bytes();
    let n = b.len();
    let mut end: usize = 0;
    while end < n && b[end] != 40u8
        invariant
            n == b@.len(),
            end <= n,
            forall|k: int| 0 <= k < end ==> b@[k] != 40u8,
        decreases n - end,
    {
        end = end + 1;
    }
    proof {
        lemma_callable_end(b@, end as int);
    }
    let ghost callable = b@.take(end as int);
    let needle = call_site.callee_spelling.as_str().as_bytes();
    assert(b@ == encode_utf8(text@));
    assert(needle@ == encode_utf8(call_site.callee_spelling@));
    assert(callable == encode_utf8(text@).take(callable_end(encode_utf8(text@)) as int));
    let m = needle.len();
    if m > end {
        proof {
            assert forall|j: int| !bytes_at(callable, needle@, j) by {}
        }
        return None;
    }
    let mut i: usize = end - m;
    loop
        invariant
            n == b@.len(),
            end <= n,
            m == needle@.len(),
            m <= end,
            i <= end - m,
            callable == b@.take(end as int),
            forall|j: int| i < j && bytes_at(callable, needle@, j) ==> false,
            b@ == encode_utf8(text@),
            needle@ == encode_utf8(call_site.callee_spelling@),
            callable == encode_utf8(text@).take(callable_end(encode_utf8(text@)) as int),
            call_site.expression.start.point == Some(start),
            call_site.expression_text == Some(*text),
        ensures
            bytes_at(callable, needle@, i as int),
            forall|j: int| bytes_at(callable, needle@, j) ==> j <= i,
        decreases i,
    {
        let hit = bytes_match_at(b, needle, i);
        assert(b@.subrange(i as int, i + m) == callable.subrange(i as int, i + m));
        if hit {
            break;
        }
        if i == 0 {
            proof {
                assert forall|j: int| !bytes_at(callable, needle@, j) by {}
            }
            return None;
        }
        i = i - 1;
    }
    let off = i;
    proof {
        lemma_last_unique(callable, needle@, off as int);
    }
    let mut nl: u64 = 0;
    let mut tail: u64 = 0;
    let mut k: usize = 0;
    while k < off
        invariant
            off <= end <= n == b@.len(),
            k <= off,
            nl == newlines(b@.take(k as int)),
            tail == tail_after_newline(b@.take(k as int)),
            nl <= k,
            tail <= k,
        decreases off - k,
    {
        assert(b@.take(k + 1).drop_last() == b@.take(k as int));
        if b[k] == 10u8 {
            nl = nl + 1;
            tail = 0;
        } else {
            tail = tail + 1;
        }
        k = k + 1;
    }
    let off32 = ((off as u64) % 0x1_0000_0000u64) as u32;
    if nl == 0 {
        Some(LineColumn { line: start.line, column: start.column.saturating_add(off32) })
    } else {
        let nl32 = (nl % 0x1_0000_0000u64) as u32;
        let t32 = (((tail % 0x1_0000_0000u64) + 1) % 0x1_0000_0000u64) as u32;
        Some(LineColumn { line: start.line.saturating_add(nl32), column: t32 })
    }
}

/// The verdict on a call: a referenced callable gives a direct, confirmed edge,
/// or a virtual, possible one when the callable is a virtual method; no
/// referenced callable gives an unresolved edge.
pub open spec fn verdict(referenced: bool, is_virtual: bool) -> (CallKind, Confidence, VerificationReason) {
    if !referenced {
        (CallKind::Unresolved, Confidence::Unresolved, VerificationReason::IndirectTargetUnknown)
    } else if is_virtual {
        (CallKind::Virtual, Confidence::Possible, VerificationReason::MultipleRuntimeTargets)
    } else {
        (CallKind::Direct, Confidence::Confirmed, VerificationReason::ExactReference)
    }
}

/// The verdict on a call (see [`verdict`]).
pub fn classify_call(referenced: bool, is_virtual: bool) -> (r: (CallKind, Confidence, VerificationReason))
    ensures
        r == verdict(referenced, is_virtual),
{
    if !referenced {
        (CallKind::Unresolved, Confidence::Unresolved, VerificationReason::IndirectTargetUnknown)
    } else if is_virtual {
        (CallKind::Virtual, Confidence::Possible, VerificationReason::MultipleRuntimeTargets)
    } else {
        (CallKind::Direct, Confidence::Confirmed, VerificationReason::ExactReference)
    }
}

/// The edge a verified call gives in one context: from the caller to the
/// callee found (none when no callable was referenced), with the verdict, the
/// call site, the context, and the evidence: the expression, the callee as
/// static target, the callee and, for a virtual call, the `overrides` it may
/// reach at run time as candidate targets, and the callee's spelling location
/// (the expression's start when unknown).
pub fn verified_edge(id: u32, call: &CandidateCallSite, context: &CompilationKey, caller: &Symbol,
    callee: Option<Symbol>, is_virtual: bool, overrides: Vec<Symbol>) -> (r: CallEdge)
    ensures
        r.id == CallEdgeId(id),
        r.caller == caller.id,
        r.callee == match callee { Some(c) => Some(c.id), None => None },
        r.callsite == call.expression,
        (r.kind, r.confidence, r.evidence_by_context.vals@[0].1.reason) == verdict(callee is Some, is_virtual),
        r.contexts.wf() && r.contexts.vals@ == seq![*context],
        r.evidence_by_context.wf() && r.evidence_by_context.vals@.len() == 1,
        r.evidence_by_context.vals@[0].0 == *context,
        r.evidence_by_context.vals@[0].1.static_target == callee,
        r.evidence_by_context.vals@[0].1.candidate_targets@ == match callee {
            Some(c) => if is_virtual { seq![c] + overrides@ } else { seq![c] },
            None => Seq::empty(),
        },
        r.evidence_by_context.vals@[0].1.expression_text == call.expression_text,
        r.evidence_by_context.vals@[0].1.spelling_location == match call.callee_location {
            Some(l) => Some(l),
            None => Some(call.expression.start),
        },
        r.evidence_by_context.vals@[0].1.is_virtual == is_virtual,
{
    let (kind, confidence, reason) = classify_call(callee.is_some(), is_virtual);
    let callee_id = match &callee {
        Some(c) => Some(c.id.clone()),
        None => None,
    };
    let candidate_targets = match &callee {
        Some(c) => {
            let mut t = vec![c.clone()];
            if is_virtual {
                let mut more = overrides;
                t.append(&mut more);
            }
            t
        },
        None => Vec::new(),
    };
    let spelling_location = match &call.callee_location {
        Some(l) => Some(l.clone()),
        None => Some(call.expression.start.clone()),
    };
    let expression_text = match &call.expression_text {
        Some(t) => Some(t.clone()),
        None => None,
    };
    let evidence = VerificationEvidence {
        expression_text,
        static_target: callee,
        candidate_targets,
        clang_diagnostics: Vec::new(),
        reason,
        spelling_location,
        expansion_location: Some(call.expression.start.clone()),
        is_virtual,
        is_template_related: false,
        is_macro_expanded: false,
    };
    let mut contexts: OrdMap<CompilationKey> = OrdMap::new();
    let _ = contexts.insert(compilation_key_key(context), context.clone());
    let mut evidence_by_context: OrdMap<(CompilationKey, VerificationEvidence)> = OrdMap::new();
    let _ = evidence_by_context.insert(compilation_key_key(context), (context.clone(), evidence));
    proof {
        assert(contexts.vals@ =~= seq![*context]);
    }
    CallEdge {
        id: CallEdgeId(id),
        caller: caller.id.clone(),
        callee: callee_id,
        callsite: call.expression.clone(),
        kind,
        confidence,
        contexts,
        evidence_by_context,
    }
}

/// Translation units parsed per compilation context, or why parsing failed:
/// each context is parsed once; later requests are answered from the cache.
pub struct ParseCache<T> {
    /// Outcome per context key
    pub entries: OrdMap<(CompilationKey, Result<T, String>)>,
    /// Parses made
    pub parses: usize,
    /// Requests answered from the cache
    pub hits: usize,
}

/// The key under which a context is cached.
pub open spec fn cache_key(k: CompilationKey) -> Seq<u32> {
    crate::keys::enc_compilation_key(k)
}

/// `n + 1`, saturated at `usize::MAX`.
pub open spec fn sat_inc(n: usize) -> usize {
    if n < usize::MAX { (n + 1) as usize } else { n }
}

impl<T: Copy> ParseCache<T> {
    /// The map is well formed, holds each outcome under its context's key, and
    /// one parse was made per context held.
    pub open spec fn wf(&self) -> bool {
        &&& self.entries.wf()
        &&& forall|i: int| 0 <= i < self.entries.size() ==>
            #[trigger] self.entries.key_view()[i] == cache_key(self.entries.vals@[i].0)
        &&& self.entries.size() == self.parses
    }

    /// Whether the outcome for a context is cached.
    pub open spec fn cached(&self, k: CompilationKey) -> bool {
        self.entries.contains(cache_key(k))
    }

    /// The cached outcome for a context.
    pub open spec fn outcome(&self, k: CompilationKey) -> Result<T, String> {
        value_of(self.entries, cache_key(k)).1
    }

    /// An empty cache.
    pub fn new() -> (r: Self)
        ensures
            r.wf(),
            r.parses == 0 && r.hits == 0,
            forall|k: CompilationKey| !r.cached(k),
    {
        ParseCache { entries: OrdMap::new(), parses: 0, hits: 0 }
    }

    /// The cached outcome for a context, counting a hit when there is one.
    pub fn lookup(&mut self, key: &CompilationKey) -> (r: Option<Result<T, String>>)
        requires
            old(self).wf(),
        ensures
            final(self).wf(),
            final(self).entries == old(self).entries,
            final(self).parses == old(self).parses,
            r is Some <==> old(self).cached(*key),
            r matches Some(o) ==> o == old(self).outcome(*key),
            final(self).hits == if r is Some { sat_inc(old(self).hits) } else { old(self).hits },
    {
        let k = compilation_key_key(key);
        match self.entries.find(k.as_slice()) {
            Ok(i) => {
                proof { crate::order::lemma_pos_of(self.entries, i as int); }
                self.hits = if self.hits < usize::MAX { self.hits + 1 } else { self.hits };
                let o = match &self.entries.value_at(i).1 {
                    Ok(t) => Ok(*t),
                    Err(e) => Err(e.clone()),
                };
                Some(o)
            },
            Err(_) => None,
        }
    }

    /// Records the outcome of parsing a context not cached yet, counting the parse.
    pub fn store(&mut self, key: &CompilationKey, outcome: Result<T, String>)
        requires
            old(self).wf(),
            !old(self).cached(*key),
        ensures
            final(self).wf(),
            final(self).parses == old(self).parses + 1,
            final(self).hits == old(self).hits,
            final(self).cached(*key),
            final(self).outcome(*key) == outcome,
            forall|k: CompilationKey| #[trigger] final(self).cached(k) <==> (old(self).cached(k) || cache_key(k) == cache_key(*key)),
            forall|k: CompilationKey| old(self).cached(k) ==> #[trigger] final(self).outcome(k) == old(self).outcome(k),
    {
        let ghost om = self.entries;
        let k = compilation_key_key(key);
        let p = self.entries.insert(k, (key.clone(), outcome));
        let ghost m = self.entries;
        proof {
            crate::order::lemma_insert_effect(om, m, cache_key(*key), (*key, outcome), p as int);
            assert forall|i: int| 0 <= i < m.size() implies #[trigger] m.key_view()[i] == cache_key(m.vals@[i].0) by {
                if i < p {
                    assert(m.vals@[i] == om.vals@[i] && m.key_view()[i] == om.key_view()[i]);
                } else if i > p {
                    assert(m.vals@[i] == om.vals@[i - 1] && m.key_view()[i] == om.key_view()[i - 1]);
                }
            }
        }
        self.parses = self.entries.len();
    }
}

/// What an enclosing declaration is: a namespace, a class-like type, or
/// something else.
#[derive(Debug, Clone, Copy, PartialEq, Eq, Structural)]
pub enum ScopeKind {
    /// A namespace
    Namespace,
    /// A class, struct, union or class template
    Class,
    /// Anything else
    Other,
}

/// The non-empty names of a chain of declarations given innermost first,
/// outermost first.
pub open spec fn outer_names(chain: Seq<String>) -> Seq<Seq<char>>
    decreases chain.len(),
{
    if chain.len() == 0 {
        Seq::empty()
    } else {
        (if chain.last()@.len() > 0 { seq![chain.last()@] } else { Seq::empty() }) + outer_names(chain.drop_last())
    }
}

/// The names of a chain, given innermost first, outermost first and joined with
/// `::`; `unnamed` when no name is left.
pub open spec fn qualified_of(chain: Seq<String>) -> Seq<char> {
    if outer_names(chain).len() == 0 { "unnamed"@ } else { join_with(outer_names(chain), "::"@) }
}

/// The non-empty names of a chain, outermost first.
fn outer_names_exec(chain: &[String]) -> (r: Vec<String>)
    ensures
        r@.map_values(|x: String| x@) == outer_names(chain@),
{
    let mut acc: Vec<String> = Vec::new();
    let n = chain.len();
    let mut i: usize = 0;
    while i < n
        invariant
            n == chain@.len(),
            i <= n,
            acc@.map_values(|x: String| x@) == outer_names(chain@.take(i as int)),
        decreases n - i,
    {
        let ghost prev = acc@;
        if chain[i].as_str().unicode_len() > 0 {
            acc.insert(0, chain[i].clone());
            assert(acc@.map_values(|x: String| x@) =~= seq![chain@[i as int]@] + prev.map_values(|x: String| x@));
        }
        proof {
            let t = chain@.take(i + 1);
            assert(t.drop_last() =~= chain@.take(i as int));
            assert(t.last() == chain@[i as int]);
            if chain@[i as int]@.len() == 0 {
                assert(acc@.map_values(|x: String| x@) =~= Seq::<Seq<char>>::empty() + prev.map_values(|x: String| x@));
            }
        }
        i = i + 1;
    }
    proof {
        assert(chain@.take(n as int) =~= chain@);
    }
    acc
}

/// The qualified name of a declaration from its chain of names, innermost
/// (its own) first: the non-empty names outermost first joined with `::`, or
/// `unnamed`.
pub fn qualified_name_of(chain: &[String]) -> (r: String)
    ensures
        r@ == qualified_of(chain@),
{
    let names = outer_names_exec(chain);
    if names.len() == 0 {
        "unnamed".to_string()
    } else {
        join_strings(names.as_slice(), "::")
    }
}

/// The enclosing names of the given kind, from a chain of enclosing
/// declarations given innermost first, outermost first.
pub open spec fn names_of_kind(parents: Seq<(String, ScopeKind)>, k: ScopeKind) -> Seq<Seq<char>>
    decreases parents.len(),
{
    if parents.len() == 0 {
        Seq::empty()
    } else {
        let (name, kind) = parents.last();
        (if kind == k && name@.len() > 0 { seq![name@] } else { Seq::empty() }) + names_of_kind(parents.drop_last(), k)
    }
}

/// The joined names of a kind, or none.
pub open spec fn joined_or_none(names: Seq<Seq<char>>) -> Option<Seq<char>> {
    if names.len() == 0 { None } else { Some(join_with(names, "::"@)) }
}

/// The enclosing names of a kind, outermost first.
fn names_of_kind_exec(parents: &[(String, ScopeKind)], k: ScopeKind) -> (r: Vec<String>)
    ensures
        r@.map_values(|x: String| x@) == names_of_kind(parents@, k),
{
    let mut acc: Vec<String> = Vec::new();
    let n = parents.len();
    let mut i: usize = 0;
    while i < n
        invariant
            n == parents@.len(),
            i <= n,
            acc@.map_values(|x: String| x@) == names_of_kind(parents@.take(i as int), k),
        decreases n - i,
    {
        let ghost prev = acc@;
        let hit = parents[i].1 == k && parents[i].0.as_str().unicode_len() > 0;
        if hit {
            acc.insert(0, parents[i].0.clone());
            assert(acc@.map_values(|x: String| x@) =~= seq![parents@[i as int].0@] + prev.map_values(|x: String| x@));
        }
        proof {
            let t = parents@.take(i + 1);
            assert(t.drop_last() =~= parents@.take(i as int));
            assert(t.last() == parents@[i as int]);
            if !hit {
                assert(acc@.map_values(|x: String| x@) =~= Seq::<Seq<char>>::empty() + prev.map_values(|x: String| x@));
            }
        }
        i = i + 1;
    }
    proof {
        assert(parents@.take(n as int) =~= parents@);
    }
    acc
}

/// The namespace and the owning class of a declaration, from its enclosing
/// declarations given innermost first: the names of each kind, outermost first
/// and joined with `::`, or none.
pub fn scope_parts_of(parents: &[(String, ScopeKind)]) -> (r: (Option<String>, Option<String>))
    ensures
        crate::discovery::opt_view(r.0) == joined_or_none(names_of_kind(parents@, ScopeKind::Namespace)),
        crate::discovery::opt_view(r.1) == joined_or_none(names_of_kind(parents@, ScopeKind::Class)),
{
    let ns = names_of_kind_exec(parents, ScopeKind::Namespace);
    let cls = names_of_kind_exec(parents, ScopeKind::Class);
    let namespace = if ns.len() == 0 { None } else { Some(join_strings(ns.as_slice(), "::")) };
    let class_name = if cls.len() == 0 { None } else { Some(join_strings(cls.as_slice(), "::")) };
    (namespace, class_name)
}

} // verus!
