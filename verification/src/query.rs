//! The on-demand query and traversal engine: it resolves the query's symbols,
//! expands callers or callees breadth-first through semantic verification, and
//! builds the result's paths and counts.
use vstd::prelude::*;
use crate::keys::{enc_symbol_id, edge_key, edge_key_of, symbol_id_key, same_symbol_id};
use crate::model::{CallEdge, CallEdgeId, CallKind, CallPath, CandidateCallId, CandidateCallSite, CandidateCallKind, CandidateSymbol, CandidateSymbolKind, CompilationKey,
    Completion, Confidence, QueryMetrics, QueryRequest, QueryResult, ResultCounts, Symbol, SymbolId, SymbolQuery};
use crate::diagnostic::{AnalysisIssue, Diagnostic, FatalError, QueryError};
use crate::discovery::{DiscoveryIndex, SourceFile, valid_id};
use crate::project::ProjectContext;
use crate::semantic::{ResolutionBatch, SemanticProvider, VerificationBatch, VerificationResult};
use crate::order::{OrdMap, KeyOrder, compare_codes, enc_path, lex_lt, path_key, strictly_sorted, value_of, lemma_insert_effect};
use crate::text::{chars_of, push_str, str_eq, string_of_range};

verus! {

broadcast use vstd::string::group_string_axioms;

/// The number of edges of a confidence.
pub open spec fn count_conf(edges: Seq<CallEdge>, c: Confidence) -> nat
    decreases edges.len(),
{
    if edges.len() == 0 {
        0
    } else {
        count_conf(edges.drop_last(), c) + (if edges.last().confidence == c { 1nat } else { 0nat })
    }
}

/// Every edge has one of the three confidences.
pub proof fn lemma_counts_partition(edges: Seq<CallEdge>)
    ensures
        count_conf(edges, Confidence::Confirmed) + count_conf(edges, Confidence::Possible)
            + count_conf(edges, Confidence::Unresolved) == edges.len(),
    decreases edges.len(),
{
    if edges.len() > 0 {
        lemma_counts_partition(edges.drop_last());
    }
}

/// The summary counts of a result: its symbols, its edges by confidence, its paths.
pub fn calculate_counts(symbols: &OrdMap<Symbol>, edges: &[CallEdge], paths: &[CallPath]) -> (r: ResultCounts)
    ensures
        r.total_symbols == symbols.size(),
        r.confirmed_edges == count_conf(edges@, Confidence::Confirmed),
        r.possible_edges == count_conf(edges@, Confidence::Possible),
        r.unresolved_edges == count_conf(edges@, Confidence::Unresolved),
        r.confirmed_edges + r.possible_edges + r.unresolved_edges == edges@.len(),
        r.paths_count == paths@.len(),
{
    let mut confirmed: usize = 0;
    let mut possible: usize = 0;
    let mut unresolved: usize = 0;
    let n = edges.len();
    for i in 0..n
        invariant
            n == edges@.len(),
            confirmed == count_conf(edges@.take(i as int), Confidence::Confirmed),
            possible == count_conf(edges@.take(i as int), Confidence::Possible),
            unresolved == count_conf(edges@.take(i as int), Confidence::Unresolved),
            confirmed + possible + unresolved == i,
    {
        proof {
            assert(edges@.take(i + 1).drop_last() =~= edges@.take(i as int));
            lemma_counts_partition(edges@.take(i as int));
        }
        match edges[i].confidence {
            Confidence::Confirmed => confirmed = confirmed + 1,
            Confidence::Possible => possible = possible + 1,
            Confidence::Unresolved => unresolved = unresolved + 1,
        }
    }
    proof {
        assert(edges@.take(n as int) =~= edges@);
    }
    ResultCounts {
        total_symbols: symbols.len(),
        confirmed_edges: confirmed,
        possible_edges: possible,
        unresolved_edges: unresolved,
        paths_count: paths.len(),
    }
}

/// A symbol map: ordered by symbol identifier, each symbol under its own.
pub open spec fn sym_map_wf(m: OrdMap<Symbol>) -> bool {
    &&& m.wf()
    &&& forall|i: int| 0 <= i < m.size() ==> #[trigger] m.key_view()[i] == enc_symbol_id(m.vals@[i].id)
}

/// Adds a symbol unless one with its identifier is held (`entry().or_insert`).
#[verifier::spinoff_prover]
pub fn record_symbol(m: &mut OrdMap<Symbol>, s: Symbol)
    requires
        sym_map_wf(*old(m)),
    ensures
        sym_map_wf(*final(m)),
        final(m).contains(enc_symbol_id(s.id)),
        forall|k: Seq<u32>| #[trigger] final(m).contains(k) <==> (old(m).contains(k) || k == enc_symbol_id(s.id)),
        forall|i: int| #![trigger old(m).vals@[i]] 0 <= i < old(m).size() ==> exists|j: int| 0 <= j < final(m).size()
            && final(m).key_view()[j] == old(m).key_view()[i] && #[trigger] final(m).vals@[j] == old(m).vals@[i],
{
    let k = symbol_id_key(&s.id);
    let ghost om = *m;
    let r = m.insert_if_absent(k, s);
    proof {
        match r {
            Some(p) => {
                assert forall|i: int| 0 <= i < m.size() implies #[trigger] m.key_view()[i] == enc_symbol_id(m.vals@[i].id) by {
                    if i < p {
                        assert(m.key_view()[i] == om.key_view()[i]);
                    } else if i > p {
                        assert(m.key_view()[i] == om.key_view()[i - 1]);
                    }
                }
                assert(m.key_view()[p as int] == enc_symbol_id(s.id));
                assert forall|x: Seq<u32>| m.contains(x) <==> (om.contains(x) || x == enc_symbol_id(s.id)) by {
                    if om.contains(x) {
                        let w = choose|w: int| 0 <= w < om.key_view().len() && om.key_view()[w] == x;
                        if w < p {
                            assert(m.key_view()[w] == x);
                        } else {
                            assert(m.key_view()[w + 1] == x);
                        }
                    }
                    if m.contains(x) {
                        let w = choose|w: int| 0 <= w < m.key_view().len() && m.key_view()[w] == x;
                        if w < p {
                            assert(om.key_view()[w] == x);
                        } else if w > p {
                            assert(om.key_view()[w - 1] == x);
                        }
                    }
                }
                assert forall|i: int| #![trigger om.vals@[i]] 0 <= i < om.size() implies exists|j: int| 0 <= j < m.size()
                    && m.key_view()[j] == om.key_view()[i] && #[trigger] m.vals@[j] == om.vals@[i] by {
                    if i < p {
                        assert(m.vals@[i] == om.vals@[i] && m.key_view()[i] == om.key_view()[i]);
                    } else {
                        assert(m.vals@[i + 1] == om.vals@[i] && m.key_view()[i + 1] == om.key_view()[i]);
                    }
                }
            },
            None => {
                assert forall|i: int| #![trigger om.vals@[i]] 0 <= i < om.size() implies exists|j: int| 0 <= j < m.size()
                    && m.key_view()[j] == om.key_view()[i] && #[trigger] m.vals@[j] == om.vals@[i] by {
                    assert(m.vals@[i] == om.vals@[i]);
                }
            },
        }
    }
}

/// Adds the symbols met while verifying, keeping those already held.
pub fn record_verified_symbols(m: &mut OrdMap<Symbol>, symbols: Vec<Symbol>)
    requires
        sym_map_wf(*old(m)),
    ensures
        sym_map_wf(*final(m)),
        forall|k: Seq<u32>| #[trigger] final(m).contains(k) <==> (old(m).contains(k)
            || exists|j: int| 0 <= j < symbols@.len() && enc_symbol_id(#[trigger] symbols@[j].id) == k),
{
    let ghost om = *m;
    let n = symbols.len();
    let mut i: usize = 0;
    while i < n
        invariant
            i <= n,
            n == symbols@.len(),
            sym_map_wf(*m),
            forall|k: Seq<u32>| #[trigger] m.contains(k) <==> (om.contains(k)
                || exists|j: int| 0 <= j < i && enc_symbol_id(#[trigger] symbols@[j].id) == k),
        decreases n - i,
    {
        let ghost before = *m;
        record_symbol(m, symbols[i].clone());
        proof {
            assert forall|k: Seq<u32>| #[trigger] m.contains(k) <==> (om.contains(k)
                || exists|j: int| 0 <= j < i + 1 && enc_symbol_id(#[trigger] symbols@[j].id) == k) by {
                assert(before.contains(k) <==> (om.contains(k)
                    || exists|j: int| 0 <= j < i && enc_symbol_id(#[trigger] symbols@[j].id) == k));
                if k == enc_symbol_id(symbols@[i as int].id) {
                    assert(0 <= i < i + 1 && enc_symbol_id(symbols@[i as int].id) == k);
                }
                if exists|j: int| 0 <= j < i + 1 && enc_symbol_id(#[trigger] symbols@[j].id) == k {
                    let w = choose|j: int| 0 <= j < i + 1 && enc_symbol_id(#[trigger] symbols@[j].id) == k;
                    if w < i {
                        assert(before.contains(k));
                    }
                }
            }
        }
        i = i + 1;
    }
}

/// Adds the static and candidate targets named by an edge's evidence, keeping
/// the symbols already held.
pub fn record_symbols_from_edge(m: &mut OrdMap<Symbol>, edge: &CallEdge)
    requires
        sym_map_wf(*old(m)),
    ensures
        sym_map_wf(*final(m)),
        forall|k: Seq<u32>| #[trigger] old(m).contains(k) ==> final(m).contains(k),
        forall|i: int| 0 <= i < edge.evidence_by_context.vals@.len() ==>
            ((#[trigger] edge.evidence_by_context.vals@[i]).1.static_target matches Some(t) ==> final(m).contains(enc_symbol_id(t.id))),
        forall|i: int, j: int| 0 <= i < edge.evidence_by_context.vals@.len()
            && 0 <= j < edge.evidence_by_context.vals@[i].1.candidate_targets@.len() ==>
            final(m).contains(enc_symbol_id(#[trigger] edge.evidence_by_context.vals@[i].1.candidate_targets@[j].id)),
{
    let ev = &edge.evidence_by_context.vals;
    let n = ev.len();
    let mut i: usize = 0;
    while i < n
        invariant
            i <= n,
            n == ev@.len(),
            *ev == edge.evidence_by_context.vals,
            sym_map_wf(*m),
            forall|k: Seq<u32>| #[trigger] old(m).contains(k) ==> m.contains(k),
            forall|a: int| 0 <= a < i ==>
                ((#[trigger] ev@[a]).1.static_target matches Some(t) ==> m.contains(enc_symbol_id(t.id))),
            forall|a: int, b: int| 0 <= a < i && 0 <= b < ev@[a].1.candidate_targets@.len() ==>
                m.contains(enc_symbol_id(#[trigger] ev@[a].1.candidate_targets@[b].id)),
        decreases n - i,
    {
        let e = &ev[i].1;
        match &e.static_target {
            Some(t) => record_symbol(m, t.clone()),
            None => {},
        }
        let c = e.candidate_targets.len();
        let mut j: usize = 0;
        while j < c
            invariant
                j <= c,
                c == e.candidate_targets@.len(),
                *e == ev@[i as int].1,
                i < n,
                n == ev@.len(),
                sym_map_wf(*m),
                forall|k: Seq<u32>| #[trigger] old(m).contains(k) ==> m.contains(k),
                forall|a: int| 0 <= a < i ==>
                    ((#[trigger] ev@[a]).1.static_target matches Some(t) ==> m.contains(enc_symbol_id(t.id))),
                e.static_target matches Some(t) ==> m.contains(enc_symbol_id(t.id)),
                forall|a: int, b: int| 0 <= a < i && 0 <= b < ev@[a].1.candidate_targets@.len() ==>
                    m.contains(enc_symbol_id(#[trigger] ev@[a].1.candidate_targets@[b].id)),
                forall|b: int| 0 <= b < j ==> m.contains(enc_symbol_id(#[trigger] e.candidate_targets@[b].id)),
            decreases c - j,
        {
            record_symbol(m, e.candidate_targets[j].clone());
            j = j + 1;
        }
        i = i + 1;
    }
}

/// `s` without every trailing `::`.
pub open spec fn trim_end_seps(s: Seq<char>) -> Seq<char>
    decreases s.len(),
{
    if s.len() >= 2 && s[s.len() - 2] == ':' && s[s.len() - 1] == ':' {
        trim_end_seps(s.take(s.len() - 2))
    } else {
        s
    }
}

/// Whether `s` holds `::` at `i`.
pub open spec fn sep_at(s: Seq<char>, i: int) -> bool {
    0 <= i && i + 1 < s.len() && s[i] == ':' && s[i + 1] == ':'
}

/// The position of the first `::` in `s`, if any.
pub open spec fn first_sep(s: Seq<char>) -> Option<int>
    decreases s.len(),
{
    if s.len() < 2 {
        None
    } else if s[0] == ':' && s[1] == ':' {
        Some(0)
    } else {
        match first_sep(s.drop_first()) {
            Some(i) => Some(i + 1),
            None => None,
        }
    }
}

proof fn lemma_first_sep(s: Seq<char>, i: int)
    requires
        0 <= i <= s.len(),
        forall|k: int| 0 <= k < i ==> !sep_at(s, k),
        sep_at(s, i) || i + 1 >= s.len(),
    ensures
        first_sep(s) == (if sep_at(s, i) { Some(i) } else { None::<int> }),
    decreases i,
{
    if i > 0 && s.len() >= 2 {
        assert(!sep_at(s, 0));
        assert forall|k: int| 0 <= k < i - 1 implies !sep_at(s.drop_first(), k) by {
            assert(!sep_at(s, k + 1));
        }
        if sep_at(s, i) {
            assert(sep_at(s.drop_first(), i - 1));
        }
        lemma_first_sep(s.drop_first(), i - 1);
    }
}

/// `s` split at each `::`, left to right (`str::split("::")`).
pub open spec fn split_seps(s: Seq<char>) -> Seq<Seq<char>>
    decreases s.len(),
{
    match first_sep(s) {
        Some(i) => if 0 <= i && i + 2 <= s.len() { seq![s.take(i)] + split_seps(s.skip(i + 2)) } else { seq![s] },
        None => seq![s],
    }
}

/// The non-empty pieces.
pub open spec fn nonempty_parts(p: Seq<Seq<char>>) -> Seq<Seq<char>>
    decreases p.len(),
{
    if p.len() == 0 {
        Seq::empty()
    } else {
        let rest = nonempty_parts(p.drop_last());
        if p.last().len() > 0 { rest.push(p.last()) } else { rest }
    }
}

/// The scope segments of a qualifier hint (`ns::Class::` gives `ns`, `Class`).
pub open spec fn scope_segments(q: Seq<char>) -> Seq<Seq<char>> {
    nonempty_parts(split_seps(trim_end_seps(q)))
}

/// Segments joined by `::`.
pub open spec fn join_seps(p: Seq<Seq<char>>) -> Seq<char>
    decreases p.len(),
{
    if p.len() == 0 {
        Seq::empty()
    } else if p.len() == 1 {
        p[0]
    } else {
        join_seps(p.drop_last()) + seq![':', ':'] + p.last()
    }
}

proof fn lemma_nonempty_append(a: Seq<Seq<char>>, b: Seq<Seq<char>>)
    ensures
        nonempty_parts(a + b) == nonempty_parts(a) + nonempty_parts(b),
    decreases b.len(),
{
    if b.len() == 0 {
        assert(a + b =~= a);
        assert(nonempty_parts(a) + nonempty_parts(b) =~= nonempty_parts(a));
    } else {
        lemma_nonempty_append(a, b.drop_last());
        assert((a + b).drop_last() =~= a + b.drop_last());
        assert((a + b).last() == b.last());
        if b.last().len() > 0 {
            assert(nonempty_parts(a) + nonempty_parts(b) =~= (nonempty_parts(a) + nonempty_parts(b.drop_last())).push(b.last()));
        }
    }
}

proof fn lemma_nonempty_single(x: Seq<char>)
    ensures
        nonempty_parts(seq![x]) == (if x.len() > 0 { seq![x] } else { Seq::<Seq<char>>::empty() }),
{
    assert(seq![x].drop_last() =~= Seq::<Seq<char>>::empty());
    assert(nonempty_parts(Seq::<Seq<char>>::empty()) =~= Seq::<Seq<char>>::empty());
    assert(seq![x].last() == x);
    assert(Seq::<Seq<char>>::empty().push(x) =~= seq![x]);
}

proof fn lemma_trim_end_done(s: Seq<char>)
    requires
        !(s.len() >= 2 && s[s.len() - 2] == ':' && s[s.len() - 1] == ':'),
    ensures
        trim_end_seps(s) == s,
{
}

/// The scope segments of a qualifier hint.
fn scope_segments_exec(q: &str) -> (r: Vec<String>)
    ensures
        r@.map_values(|x: String| x@) == scope_segments(q@),
{
    let cs = chars_of(q);
    let mut end = cs.len();
    assert(cs@.take(end as int) =~= cs@);
    while end >= 2 && cs[end - 2] == ':' && cs[end - 1] == ':'
        invariant
            end <= cs@.len(),
            cs@ == q@,
            trim_end_seps(q@) == trim_end_seps(cs@.take(end as int)),
        decreases end,
    {
        assert(cs@.take(end as int).take(end - 2) =~= cs@.take(end - 2));
        end = end - 2;
    }
    let ghost t = cs@.take(end as int);
    proof {
        lemma_trim_end_done(t);
        assert(cs@.take(cs@.len() as int) =~= cs@);
    }
    let mut out: Vec<String> = Vec::new();
    let mut start: usize = 0;
    let mut i: usize = 0;
    assert(t.skip(0) =~= t);
    assert(out@.map_values(|x: String| x@) + nonempty_parts(split_seps(t.skip(0))) =~= nonempty_parts(split_seps(t)));
    while i < end
        invariant
            end <= cs@.len(),
            t == cs@.take(end as int),
            start <= i <= end,
            forall|k: int| start <= k < i ==> !sep_at(t, k),
            out@.map_values(|x: String| x@) + nonempty_parts(split_seps(t.skip(start as int)))
                == nonempty_parts(split_seps(t)),
        decreases end - i,
    {
        if i + 1 < end && cs[i] == ':' && cs[i + 1] == ':' {
            let ghost u = t.skip(start as int);
            proof {
                assert(sep_at(t, i as int));
                assert forall|k: int| 0 <= k < i - start implies !sep_at(u, k) by {
                    assert(!sep_at(t, k + start));
                }
                assert(sep_at(u, i - start));
                lemma_first_sep(u, i - start);
                assert(u.skip(i - start + 2) =~= t.skip(i + 2));
                assert(u.take(i - start) =~= t.subrange(start as int, i as int));
                assert(split_seps(u) == seq![t.subrange(start as int, i as int)] + split_seps(t.skip(i + 2)));
                lemma_nonempty_append(seq![t.subrange(start as int, i as int)], split_seps(t.skip(i + 2)));
                assert(seq![t.subrange(start as int, i as int)] =~= Seq::<Seq<char>>::empty().push(t.subrange(start as int, i as int)));
            }
            let ghost before = out@.map_values(|x: String| x@);
            if i > start {
                let piece = string_of_range(&cs, start, i);
                out.push(piece);
                proof {
                    assert(cs@.subrange(start as int, i as int) =~= t.subrange(start as int, i as int));
                    assert(out@.map_values(|x: String| x@) =~= before.push(t.subrange(start as int, i as int)));
                    lemma_nonempty_single(t.subrange(start as int, i as int));
                }
            } else {
                proof { lemma_nonempty_single(t.subrange(start as int, i as int)); }
            }
            start = i + 2;
            i = i + 2;
        } else {
            proof {
                if !(i + 1 < end) {
                    assert(!sep_at(t, i as int));
                } else {
                    assert(!sep_at(t, i as int));
                }
            }
            i = i + 1;
        }
    }
    let ghost u = t.skip(start as int);
    proof {
        assert forall|k: int| 0 <= k < u.len() implies !sep_at(u, k) by {
            assert(!sep_at(t, k + start));
        }
        lemma_first_sep(u, u.len() as int);
        assert(split_seps(u) == seq![u]);
    }
    let ghost before = out@.map_values(|x: String| x@);
    if end > start {
        let piece = string_of_range(&cs, start, end);
        out.push(piece);
        proof {
            assert(cs@.subrange(start as int, end as int) =~= u);
            assert(out@.map_values(|x: String| x@) =~= before.push(u));
            lemma_nonempty_single(u);
        }
    } else {
        assert(u.len() == 0);
        proof { lemma_nonempty_single(u); }
    }
    out
}

/// Segments joined by `::`.
fn join_seps_exec(p: &[String]) -> (r: String)
    ensures
        r@ == join_seps(p@.map_values(|x: String| x@)),
{
    let ghost pv = p@.map_values(|x: String| x@);
    let mut out = String::new();
    let n = p.len();
    for i in 0..n
        invariant
            n == p@.len(),
            pv == p@.map_values(|x: String| x@),
            out@ == join_seps(pv.take(i as int)),
    {
        if i > 0 {
            crate::text::push_char(&mut out, ':');
            crate::text::push_char(&mut out, ':');
        }
        push_str(&mut out, p[i].as_str());
        proof {
            assert(pv.take(i + 1).drop_last() =~= pv.take(i as int));
            assert(pv.take(i + 1).last() == p@[i as int]@);
            if i == 0 {
                assert(pv.take(1)[0] == p@[0]@);
            }
        }
    }
    assert(pv.take(n as int) =~= pv);
    out
}

/// The qualifier hint of a candidate, or nothing.
pub open spec fn hint_text(c: CandidateSymbol) -> Seq<char> {
    match c.qualifier_hint {
        Some(q) => q@,
        None => Seq::empty(),
    }
}

/// The namespace a candidate's segments give: all of them for a function, all but
/// the owning class for a method.
pub open spec fn scope_namespace(c: CandidateSymbol) -> Option<Seq<char>> {
    let segs = scope_segments(hint_text(c));
    let rest = if c.syntactic_kind == CandidateSymbolKind::Function || segs.len() == 0 { segs } else { segs.drop_last() };
    if rest.len() > 0 { Some(join_seps(rest)) } else { None }
}

/// The owning class a candidate's segments give: the last segment of a method's
/// qualifier, else its owner hint; none for a function.
pub open spec fn scope_class(c: CandidateSymbol) -> Option<Seq<char>> {
    let segs = scope_segments(hint_text(c));
    if c.syntactic_kind == CandidateSymbolKind::Function {
        None
    } else if segs.len() > 0 {
        Some(segs.last())
    } else {
        crate::discovery::opt_view(c.owner_hint)
    }
}

/// The namespace and class a candidate's qualifier hint gives, for display.
pub fn candidate_scope_parts(candidate: &CandidateSymbol) -> (r: (Option<String>, Option<String>))
    ensures
        crate::discovery::opt_view(r.0) == scope_namespace(*candidate),
        crate::discovery::opt_view(r.1) == scope_class(*candidate),
{
    let hint = match &candidate.qualifier_hint {
        Some(q) => q.clone(),
        None => String::new(),
    };
    assert(hint@ == hint_text(*candidate));
    let mut segments = scope_segments_exec(hint.as_str());
    let ghost segs = segments@.map_values(|x: String| x@);
    match candidate.syntactic_kind {
        CandidateSymbolKind::Function => {
            let ns = if segments.len() > 0 { Some(join_seps_exec(&segments)) } else { None };
            (ns, None)
        },
        _ => {
            let class_name = if segments.len() > 0 {
                let last = segments.pop().unwrap();
                proof {
                    assert(segments@.map_values(|x: String| x@) =~= segs.drop_last());
                }
                Some(last)
            } else {
                crate::model::clone_opt_string(&candidate.owner_hint)
            };
            let ns = if segments.len() > 0 { Some(join_seps_exec(&segments)) } else { None };
            (ns, class_name)
        },
    }
}

/// Verified call adjacency: per caller (by identifier key), its callees and edge
/// identifiers, ordered.
pub type Adjacency = OrdMap<(SymbolId, OrdMap<(SymbolId, CallEdgeId)>)>;

/// The adjacency and its lists are ordered maps.
pub open spec fn adj_wf(adj: Adjacency) -> bool {
    &&& adj.wf()
    &&& forall|i: int| 0 <= i < adj.size() ==> (#[trigger] adj.vals@[i]).1.wf()
}

/// The adjacency lists `v` (by key) after `u` through edge `e`.
pub open spec fn adj_step(adj: Adjacency, u: Seq<u32>, v: Seq<u32>, e: CallEdgeId) -> bool {
    exists|i: int, j: int| 0 <= i < adj.size() && adj.key_view()[i] == u
        && 0 <= j < adj.vals@[i].1.vals@.len()
        && enc_symbol_id(#[trigger] adj.vals@[i].1.vals@[j].0) == v
        && adj.vals@[i].1.vals@[j].1 == e
}

/// A path through the adjacency from `source` to `target`: one more node than
/// edges, and each edge leads from its node to the next.
pub open spec fn path_through(p: CallPath, adj: Adjacency, source: SymbolId, target: SymbolId) -> bool {
    &&& p.nodes@.len() == p.edges@.len() + 1
    &&& enc_symbol_id(p.nodes@[0]) == enc_symbol_id(source)
    &&& enc_symbol_id(p.nodes@.last()) == enc_symbol_id(target)
    &&& forall|i: int| 0 <= i < p.edges@.len() ==>
        adj_step(adj, enc_symbol_id(p.nodes@[i]), enc_symbol_id(p.nodes@[i + 1]), #[trigger] p.edges@[i])
}

/// One step of the adjacency from `u` to `v`, through any edge.
pub open spec fn adj_edge(adj: Adjacency, u: Seq<u32>, v: Seq<u32>) -> bool {
    exists|e: CallEdgeId| #[trigger] adj_step(adj, u, v, e)
}

/// A walk through the adjacency from `s` to `t`: node keys, each joined to the
/// next by a step; it has one step fewer than nodes.
pub open spec fn adj_walk(adj: Adjacency, w: Seq<Seq<u32>>, s: Seq<u32>, t: Seq<u32>) -> bool {
    &&& w.len() >= 1
    &&& w[0] == s
    &&& w.last() == t
    &&& forall|i: int| 0 <= i < w.len() - 1 ==> #[trigger] adj_edge(adj, w[i], w[i + 1])
}

/// Whether some walk leads from `s` to `t`.
pub open spec fn adj_reaches(adj: Adjacency, s: Seq<u32>, t: Seq<u32>) -> bool {
    exists|w: Seq<Seq<u32>>| #[trigger] adj_walk(adj, w, s, t)
}

/// The breadth-first search state: the queue `fr` holds every visited node once
/// reached, distances never decrease along the queue, and each predecessor lies
/// one step closer to the source.
spec fn bfs_ok(adj: Adjacency, fr: Seq<SymbolId>, visited: OrdMap<usize>, preds: OrdMap<(SymbolId, CallEdgeId)>,
    dist: Map<Seq<u32>, int>, sk: Seq<u32>) -> bool {
    &&& adj_wf(adj)
    &&& visited.wf()
    &&& preds.wf()
    &&& fr.len() >= 1
    &&& enc_symbol_id(fr[0]) == sk
    &&& visited.contains(sk)
    &&& dist.contains_key(sk) && dist[sk] == 0
    &&& forall|k: Seq<u32>| #[trigger] visited.contains(k) ==> dist.contains_key(k) && dist[k] >= 0
    &&& forall|k: Seq<u32>| #[trigger] visited.contains(k) && dist[k] == 0 ==> k == sk
    &&& forall|i: int| 0 <= i < fr.len() ==> visited.contains(enc_symbol_id(#[trigger] fr[i]))
    &&& forall|k: Seq<u32>| #[trigger] visited.contains(k) ==> exists|i: int| 0 <= i < fr.len() && enc_symbol_id(#[trigger] fr[i]) == k
    &&& forall|i: int, j: int| 0 <= i <= j < fr.len() ==>
        dist[enc_symbol_id(#[trigger] fr[i])] <= dist[enc_symbol_id(#[trigger] fr[j])]
    &&& forall|k: Seq<u32>| #[trigger] visited.contains(k) && k != sk ==> preds.contains(k)
    &&& forall|i: int| 0 <= i < preds.size() ==> #[trigger] visited.contains(preds.key_view()[i])
    &&& forall|i: int| 0 <= i < preds.size() ==> {
        let (u, e) = #[trigger] preds.vals@[i];
        &&& visited.contains(enc_symbol_id(u))
        &&& dist[enc_symbol_id(u)] + 1 == dist[preds.key_view()[i]]
        &&& adj_step(adj, enc_symbol_id(u), preds.key_view()[i], e)
    }
}

/// The first `done` queued nodes are expanded: each of their steps leads to a
/// visited node at most one further away.
spec fn bfs_expanded(adj: Adjacency, fr: Seq<SymbolId>, visited: OrdMap<usize>, dist: Map<Seq<u32>, int>, done: int) -> bool {
    forall|i: int, v: Seq<u32>| 0 <= i < done && #[trigger] adj_edge(adj, enc_symbol_id(fr[i]), v) ==>
        visited.contains(v) && dist[v] <= dist[enc_symbol_id(fr[i])] + 1
}

/// Along a walk from the source, the `i`-th node is visited within distance `i`,
/// unless the target (queued right after the expanded nodes) is already within it.
proof fn lemma_bfs_walk(adj: Adjacency, fr: Seq<SymbolId>, visited: OrdMap<usize>, preds: OrdMap<(SymbolId, CallEdgeId)>,
    dist: Map<Seq<u32>, int>, sk: Seq<u32>, tk: Seq<u32>, done: int, w: Seq<Seq<u32>>, i: int)
    requires
        bfs_ok(adj, fr, visited, preds, dist, sk),
        bfs_expanded(adj, fr, visited, dist, done),
        0 <= done <= fr.len(),
        done < fr.len() ==> enc_symbol_id(fr[done]) == tk,
        adj_walk(adj, w, sk, tk),
        0 <= i < w.len(),
    ensures
        (visited.contains(tk) && dist[tk] <= i) || (visited.contains(w[i]) && dist[w[i]] <= i),
    decreases i,
{
    if i > 0 {
        lemma_bfs_walk(adj, fr, visited, preds, dist, sk, tk, done, w, i - 1);
        if !(visited.contains(tk) && dist[tk] <= i - 1) {
            let u = w[i - 1];
            assert(visited.contains(u));
            let p = choose|p: int| 0 <= p < fr.len() && enc_symbol_id(#[trigger] fr[p]) == u;
            let h = i - 1;
            assert(adj_edge(adj, w[h], w[h + 1]));
            if p < done {
                assert(adj_edge(adj, enc_symbol_id(fr[p]), w[i]));
            } else {
                assert(dist[enc_symbol_id(fr[done])] <= dist[enc_symbol_id(fr[p])]);
                assert(visited.contains(enc_symbol_id(fr[done])));
            }
        }
    }
}

/// A shortest path (breadth-first, in adjacency order) from `source` to `target`:
/// one exists exactly when some walk leads there, and none is shorter.
pub fn shortest_path(source: &SymbolId, target: &SymbolId, adjacency: &Adjacency) -> (r: Option<CallPath>)
    requires
        adj_wf(*adjacency),
    ensures
        r is Some <==> adj_reaches(*adjacency, enc_symbol_id(*source), enc_symbol_id(*target)),
        r matches Some(p) ==> path_through(p, *adjacency, *source, *target),
        r matches Some(p) ==> forall|w: Seq<Seq<u32>>| #[trigger] adj_walk(*adjacency, w, enc_symbol_id(*source), enc_symbol_id(*target))
            ==> p.edges@.len() < w.len(),
{
    let sk = symbol_id_key(source);
    let tk = symbol_id_key(target);
    let mut frontier: Vec<SymbolId> = Vec::new();
    frontier.push(source.clone());
    let mut visited: OrdMap<usize> = OrdMap::new();
    let _ = visited.insert(symbol_id_key(source), 0);
    let mut preds: OrdMap<(SymbolId, CallEdgeId)> = OrdMap::new();
    let ghost mut dist: Map<Seq<u32>, int> = Map::empty().insert(sk@, 0);
    let mut head: usize = 0;
    let mut found = false;
    assert(visited.key_view() =~= seq![sk@]);
    proof {
        assert forall|k: Seq<u32>| #[trigger] visited.contains(k) implies exists|i: int| 0 <= i < frontier@.len()
            && enc_symbol_id(#[trigger] frontier@[i]) == k by {
            assert(enc_symbol_id(frontier@[0]) == k);
        }
    }
    while head < frontier.len() && !found
        invariant
            bfs_ok(*adjacency, frontier@, visited, preds, dist, sk@),
            sk@ == enc_symbol_id(*source),
            tk@ == enc_symbol_id(*target),
            head <= frontier@.len(),
            found ==> head >= 1 && enc_symbol_id(frontier@[head - 1]) == tk@,
            bfs_expanded(*adjacency, frontier@, visited, dist, if found { head - 1 } else { head as int }),
            !found && head < frontier@.len() ==>
                dist[enc_symbol_id(frontier@[frontier@.len() - 1])] <= dist[enc_symbol_id(frontier@[head as int])] + 1,
        decreases usize::MAX - head, if found { 0int } else { 1int },
    {
        let current = frontier[head].clone();
        head = head + 1;
        if same_symbol_id(&current, target) {
            found = true;
        } else {
            let ck = symbol_id_key(&current);
            proof {
                assert(frontier@[head - 1] == current);
            }
            let ghost dcur = dist[ck@];
            match adjacency.find(ck.as_slice()) {
                Ok(ai) => {
                    let list = &adjacency.value_at(ai).1.vals;
                    let n = list.len();
                    let mut j: usize = 0;
                    while j < n
                        invariant
                            bfs_ok(*adjacency, frontier@, visited, preds, dist, sk@),
                            ai < adjacency.size(),
                            adjacency.key_view()[ai as int] == ck@,
                            *list == adjacency.vals@[ai as int].1.vals,
                            n == list@.len(),
                            j <= n,
                            1 <= head <= frontier@.len(),
                            ck@ == enc_symbol_id(frontier@[head - 1]),
                            ck@ == enc_symbol_id(current),
                            dcur == dist[ck@],
                            sk@ == enc_symbol_id(*source),
                            tk@ == enc_symbol_id(*target),
                            bfs_expanded(*adjacency, frontier@, visited, dist, head - 1),
                            dist[enc_symbol_id(frontier@[frontier@.len() - 1])] <= dcur + 1,
                            forall|jj: int| 0 <= jj < j ==> visited.contains(enc_symbol_id(#[trigger] list@[jj].0))
                                && dist[enc_symbol_id(list@[jj].0)] <= dcur + 1,
                        decreases n - j,
                    {
                        let next = &list[j].0;
                        let e = list[j].1;
                        let nk = symbol_id_key(next);
                        let ghost ov = visited;
                        let ghost op = preds;
                        let ghost of = frontier@;
                        let ghost od = dist;
                        let fresh = visited.insert_if_absent(nk.clone(), head);
                        if fresh.is_some() {
                            let pp = preds.insert_if_absent(nk, (current.clone(), e));
                            frontier.push(next.clone());
                            proof {
                                lemma_bfs_push(*adjacency, of, frontier@, ov, visited, op, preds, od, sk@, ck@, nk@,
                                    fresh.unwrap() as int, pp.unwrap() as int, current, e, head - 1);
                                dist = od.insert(nk@, dcur + 1);
                                assert(adj_step(*adjacency, ck@, nk@, e)) by {
                                    assert(adjacency.vals@[ai as int].1.vals@[j as int] == list@[j as int]);
                                }
                                lemma_bfs_push_ok(*adjacency, of, frontier@, ov, visited, op, preds, od, dist, sk@, ck@, nk@,
                                    pp.unwrap() as int, current, e, head - 1);
                                assert forall|jj: int| 0 <= jj < j + 1 implies visited.contains(enc_symbol_id(#[trigger] list@[jj].0))
                                    && dist[enc_symbol_id(list@[jj].0)] <= dcur + 1 by {
                                    if jj < j {
                                        assert(ov.contains(enc_symbol_id(list@[jj].0)));
                                    }
                                }
                            }
                        } else {
                            proof {
                                let q = choose|q: int| 0 <= q < frontier@.len() && enc_symbol_id(#[trigger] frontier@[q]) == nk@;
                                assert(dist[enc_symbol_id(frontier@[q])] <= dist[enc_symbol_id(frontier@[frontier@.len() - 1])]);
                            }
                        }
                        j = j + 1;
                    }
                    proof {
                        assert forall|i: int, v: Seq<u32>| 0 <= i < head && #[trigger] adj_edge(*adjacency, enc_symbol_id(frontier@[i]), v)
                            implies visited.contains(v) && dist[v] <= dist[enc_symbol_id(frontier@[i])] + 1 by {
                            if i == head - 1 {
                                let e2 = choose|e2: CallEdgeId| #[trigger] adj_step(*adjacency, ck@, v, e2);
                                let (x, y) = choose|x: int, y: int| 0 <= x < adjacency.size() && adjacency.key_view()[x] == ck@
                                    && 0 <= y < adjacency.vals@[x].1.vals@.len()
                                    && enc_symbol_id(#[trigger] adjacency.vals@[x].1.vals@[y].0) == v
                                    && adjacency.vals@[x].1.vals@[y].1 == e2;
                                crate::order::lemma_unique_key(*adjacency, x, ai as int);
                                assert(list@[y].0 == adjacency.vals@[x].1.vals@[y].0);
                            }
                        }
                    }
                },
                Err(_) => {
                    proof {
                        assert forall|i: int, v: Seq<u32>| 0 <= i < head && #[trigger] adj_edge(*adjacency, enc_symbol_id(frontier@[i]), v)
                            implies visited.contains(v) && dist[v] <= dist[enc_symbol_id(frontier@[i])] + 1 by {
                            if i == head - 1 {
                                let e2 = choose|e2: CallEdgeId| #[trigger] adj_step(*adjacency, ck@, v, e2);
                                let (x, y) = choose|x: int, y: int| 0 <= x < adjacency.size() && adjacency.key_view()[x] == ck@
                                    && 0 <= y < adjacency.vals@[x].1.vals@.len()
                                    && enc_symbol_id(#[trigger] adjacency.vals@[x].1.vals@[y].0) == v
                                    && adjacency.vals@[x].1.vals@[y].1 == e2;
                                assert(adjacency.contains(ck@));
                            }
                        }
                    }
                },
            }
            proof {
                if head < frontier@.len() {
                    assert(dist[enc_symbol_id(frontier@[head - 1])] <= dist[enc_symbol_id(frontier@[head as int])]);
                }
            }
        }
    }
    let ghost done: int = if found { head - 1 } else { head as int };
    proof {
        assert forall|w: Seq<Seq<u32>>| #[trigger] adj_walk(*adjacency, w, sk@, tk@) implies
            visited.contains(tk@) && dist[tk@] < w.len() by {
            lemma_bfs_walk(*adjacency, frontier@, visited, preds, dist, sk@, tk@, done, w, w.len() - 1);
        }
    }
    let reached = visited.find(tk.as_slice());
    if reached.is_err() {
        return None;
    }
    proof {
        let ti = reached.get_Ok_0();
        assert(visited.contains(tk@));
    }
    let mut nodes: Vec<SymbolId> = Vec::new();
    nodes.push(target.clone());
    let mut edges: Vec<CallEdgeId> = Vec::new();
    let mut current = target.clone();
    while !same_symbol_id(&current, source)
        invariant
            bfs_ok(*adjacency, frontier@, visited, preds, dist, sk@),
            sk@ == enc_symbol_id(*source),
            tk@ == enc_symbol_id(*target),
            visited.contains(enc_symbol_id(current)),
            nodes@.len() == edges@.len() + 1,
            nodes@[0] == *target,
            nodes@.last() == current,
            edges@.len() + dist[enc_symbol_id(current)] == dist[tk@],
            forall|t: int| 0 <= t < edges@.len() ==>
                adj_step(*adjacency, enc_symbol_id(nodes@[t + 1]), enc_symbol_id(nodes@[t]), #[trigger] edges@[t]),
        decreases dist[enc_symbol_id(current)],
    {
        let ck = symbol_id_key(&current);
        match preds.find(ck.as_slice()) {
            Ok(pi) => {
                let (prev, e) = preds.value_at(pi);
                let prev = prev.clone();
                let e = *e;
                proof {
                    assert(preds.vals@[pi as int].0 == prev);
                }
                let ghost before_nodes = nodes@;
                nodes.push(prev.clone());
                edges.push(e);
                current = prev;
                proof {
                    assert forall|t: int| 0 <= t < edges@.len() implies
                        adj_step(*adjacency, enc_symbol_id(nodes@[t + 1]), enc_symbol_id(nodes@[t]), #[trigger] edges@[t]) by {
                        if t == edges@.len() - 1 {
                            assert(nodes@[t] == before_nodes.last());
                        }
                    }
                }
            },
            Err(_) => {
                proof {
                    assert(preds.contains(ck@));
                }
                return None;
            },
        }
    }
    let k = nodes.len();
    let mut rn: Vec<SymbolId> = Vec::new();
    let mut re: Vec<CallEdgeId> = Vec::new();
    let mut i: usize = 0;
    while i < k
        invariant
            k == nodes@.len(),
            nodes@.len() == edges@.len() + 1,
            i <= k,
            rn@.len() == i,
            re@.len() == if i == 0 { 0 } else { i - 1 },
            forall|t: int| 0 <= t < i ==> #[trigger] rn@[t] == nodes@[k - 1 - t],
            forall|t: int| 0 <= t < re@.len() ==> #[trigger] re@[t] == edges@[edges@.len() - 1 - t],
        decreases k - i,
    {
        rn.push(nodes[k - 1 - i].clone());
        if i > 0 {
            re.push(edges[k - 1 - i]);
        }
        i = i + 1;
    }
    let p = CallPath { nodes: rn, edges: re };
    proof {
        assert(p.nodes@[0] == nodes@[k - 1]);
        assert(p.nodes@.last() == nodes@[0]);
        assert forall|t: int| 0 <= t < p.edges@.len() implies
            adj_step(*adjacency, enc_symbol_id(p.nodes@[t]), enc_symbol_id(p.nodes@[t + 1]), #[trigger] p.edges@[t]) by {
            let u = edges@.len() - 1 - t;
            assert(p.edges@[t] == edges@[u]);
            assert(p.nodes@[t] == nodes@[u + 1]);
            assert(p.nodes@[t + 1] == nodes@[u]);
        }
        let w = Seq::new(p.nodes@.len(), |x: int| enc_symbol_id(p.nodes@[x]));
        assert forall|x: int| 0 <= x < w.len() - 1 implies #[trigger] adj_edge(*adjacency, w[x], w[x + 1]) by {
            assert(adj_step(*adjacency, enc_symbol_id(p.nodes@[x]), enc_symbol_id(p.nodes@[x + 1]), p.edges@[x]));
        }
        assert(adj_walk(*adjacency, w, sk@, tk@));
    }
    Some(p)
}

/// Queueing a fresh node keeps the queue's node set and its expanded prefix.
proof fn lemma_bfs_push(adj: Adjacency, of: Seq<SymbolId>, nf: Seq<SymbolId>, ov: OrdMap<usize>, nv: OrdMap<usize>,
    op: OrdMap<(SymbolId, CallEdgeId)>, np: OrdMap<(SymbolId, CallEdgeId)>, od: Map<Seq<u32>, int>,
    sk: Seq<u32>, ck: Seq<u32>, nk: Seq<u32>, fv: int, fp: int, cur: SymbolId, e: CallEdgeId, done: int)
    requires
        bfs_ok(adj, of, ov, op, od, sk),
        0 <= fv <= ov.size(),
        nv.key_view() == ov.key_view().insert(fv, nk),
        nv.vals@.len() == nv.key_view().len(),
        nv.wf(),
        !ov.contains(nk),
        0 <= fp <= op.size(),
        np.key_view() == op.key_view().insert(fp, nk),
        np.vals@ == op.vals@.insert(fp, (cur, e)),
        np.wf(),
        nf.len() == of.len() + 1,
        forall|i: int| 0 <= i < of.len() ==> nf[i] == of[i],
        enc_symbol_id(nf[of.len() as int]) == nk,
    ensures
        forall|k: Seq<u32>| #[trigger] nv.contains(k) <==> (ov.contains(k) || k == nk),
        forall|k: Seq<u32>| #[trigger] np.contains(k) <==> (op.contains(k) || k == nk),
        !op.contains(nk),
{
    assert forall|k: Seq<u32>| #[trigger] nv.contains(k) <==> (ov.contains(k) || k == nk) by {
        lemma_insert_contains(ov, nv, nk, fv, k);
    }
    assert forall|k: Seq<u32>| #[trigger] np.contains(k) <==> (op.contains(k) || k == nk) by {
        lemma_insert_contains(op, np, nk, fp, k);
    }
    if op.contains(nk) {
        let w = choose|w: int| 0 <= w < op.key_view().len() && op.key_view()[w] == nk;
        assert(ov.contains(op.key_view()[w]));
    }
}

/// After queueing a fresh node one step past the node being expanded, the search
/// state still holds.
#[verifier::spinoff_prover]
#[verifier::rlimit(50)]
proof fn lemma_bfs_push_ok(adj: Adjacency, of: Seq<SymbolId>, nf: Seq<SymbolId>, ov: OrdMap<usize>, nv: OrdMap<usize>,
    op: OrdMap<(SymbolId, CallEdgeId)>, np: OrdMap<(SymbolId, CallEdgeId)>, od: Map<Seq<u32>, int>, nd: Map<Seq<u32>, int>,
    sk: Seq<u32>, ck: Seq<u32>, nk: Seq<u32>, fp: int, cur: SymbolId, e: CallEdgeId, c: int)
    requires
        bfs_ok(adj, of, ov, op, od, sk),
        bfs_expanded(adj, of, ov, od, c),
        0 <= c < of.len(),
        enc_symbol_id(of[c]) == ck,
        enc_symbol_id(cur) == ck,
        od[enc_symbol_id(of[of.len() - 1])] <= od[ck] + 1,
        adj_step(adj, ck, nk, e),
        nv.wf(),
        np.wf(),
        forall|k: Seq<u32>| #[trigger] nv.contains(k) <==> (ov.contains(k) || k == nk),
        forall|k: Seq<u32>| #[trigger] np.contains(k) <==> (op.contains(k) || k == nk),
        !ov.contains(nk),
        !op.contains(nk),
        0 <= fp <= op.size(),
        np.key_view() == op.key_view().insert(fp, nk),
        np.vals@ == op.vals@.insert(fp, (cur, e)),
        nf.len() == of.len() + 1,
        forall|i: int| 0 <= i < of.len() ==> nf[i] == of[i],
        enc_symbol_id(nf[of.len() as int]) == nk,
        nd == od.insert(nk, od[ck] + 1),
    ensures
        bfs_ok(adj, nf, nv, np, nd, sk),
        bfs_expanded(adj, nf, nv, nd, c),
        nd[enc_symbol_id(nf[nf.len() - 1])] <= nd[ck] + 1,
        nd[ck] == od[ck],
        nv.contains(nk) && nd[nk] == od[ck] + 1,
        forall|k: Seq<u32>| ov.contains(k) ==> #[trigger] nd[k] == od[k],
{
    assert(ov.contains(ck));
    assert(nk != sk);
    assert forall|k: Seq<u32>| ov.contains(k) implies #[trigger] nd[k] == od[k] by {}
    assert forall|i: int| 0 <= i < nf.len() implies nv.contains(enc_symbol_id(#[trigger] nf[i])) by {
        if i < of.len() {
            assert(nf[i] == of[i]);
            assert(ov.contains(enc_symbol_id(of[i])));
        }
    }
    assert forall|k: Seq<u32>| #[trigger] nv.contains(k) implies exists|i: int| 0 <= i < nf.len() && enc_symbol_id(#[trigger] nf[i]) == k by {
        if k == nk {
            assert(enc_symbol_id(nf[of.len() as int]) == k);
        } else {
            assert(ov.contains(k));
            let q = choose|q: int| 0 <= q < of.len() && enc_symbol_id(#[trigger] of[q]) == k;
            assert(nf[q] == of[q]);
        }
    }
    assert forall|i: int, j: int| 0 <= i <= j < nf.len() implies
        nd[enc_symbol_id(#[trigger] nf[i])] <= nd[enc_symbol_id(#[trigger] nf[j])] by {
        if j < of.len() {
            assert(nf[i] == of[i] && nf[j] == of[j]);
            assert(ov.contains(enc_symbol_id(of[i])) && ov.contains(enc_symbol_id(of[j])));
        } else if i < of.len() {
            assert(nf[i] == of[i]);
            assert(ov.contains(enc_symbol_id(of[i])));
            assert(od[enc_symbol_id(of[i])] <= od[enc_symbol_id(of[of.len() - 1])]);
        }
    }
    assert forall|k: Seq<u32>| #[trigger] nv.contains(k) && k != sk implies np.contains(k) by {
        if k != nk {
            assert(op.contains(k));
        }
    }
    assert forall|i: int| 0 <= i < np.size() implies #[trigger] nv.contains(np.key_view()[i]) by {
        assert(np.contains(np.key_view()[i]));
    }
    assert forall|i: int| 0 <= i < np.size() implies {
        let (u, e2) = #[trigger] np.vals@[i];
        &&& nv.contains(enc_symbol_id(u))
        &&& nd[enc_symbol_id(u)] + 1 == nd[np.key_view()[i]]
        &&& adj_step(adj, enc_symbol_id(u), np.key_view()[i], e2)
    } by {
        if i < fp {
            assert(np.vals@[i] == op.vals@[i] && np.key_view()[i] == op.key_view()[i]);
            assert(ov.contains(op.key_view()[i]));
            assert(ov.contains(enc_symbol_id(op.vals@[i].0)));
        } else if i > fp {
            assert(np.vals@[i] == op.vals@[i - 1] && np.key_view()[i] == op.key_view()[i - 1]);
            assert(ov.contains(op.key_view()[i - 1]));
            assert(ov.contains(enc_symbol_id(op.vals@[i - 1].0)));
        }
    }
    assert forall|i: int, v: Seq<u32>| 0 <= i < c && #[trigger] adj_edge(adj, enc_symbol_id(nf[i]), v) implies
        nv.contains(v) && nd[v] <= nd[enc_symbol_id(nf[i])] + 1 by {
        assert(nf[i] == of[i]);
        assert(adj_edge(adj, enc_symbol_id(of[i]), v));
        assert(ov.contains(enc_symbol_id(of[i])));
    }
}

/// Inserting a fresh key at `p` adds exactly that key.
proof fn lemma_insert_contains<V>(a: OrdMap<V>, b: OrdMap<V>, key: Seq<u32>, p: int, k: Seq<u32>)
    requires
        0 <= p <= a.size(),
        b.key_view() == a.key_view().insert(p, key),
    ensures
        b.contains(k) <==> (a.contains(k) || k == key),
{
    if a.contains(k) {
        let w = choose|w: int| 0 <= w < a.key_view().len() && a.key_view()[w] == k;
        if w < p {
            assert(b.key_view()[w] == k);
        } else {
            assert(b.key_view()[w + 1] == k);
        }
    }
    if k == key {
        assert(b.key_view()[p] == k);
    }
    if b.contains(k) {
        let w = choose|w: int| 0 <= w < b.key_view().len() && b.key_view()[w] == k;
        if w < p {
            assert(a.key_view()[w] == k);
        } else if w > p {
            assert(a.key_view()[w - 1] == k);
        }
    }
}

/// Whether edge `e` leads from `u` to `v` (by identifier keys) and has identifier `id`.
pub open spec fn edge_joins(e: CallEdge, u: Seq<u32>, v: Seq<u32>, id: CallEdgeId) -> bool {
    enc_symbol_id(e.caller) == u && (e.callee matches Some(c) && enc_symbol_id(c) == v) && e.id == id
}

/// Every adjacency step is one of the edges.
pub open spec fn adj_from_edges(adj: Adjacency, edges: Seq<CallEdge>) -> bool {
    forall|u: Seq<u32>, v: Seq<u32>, id: CallEdgeId| #[trigger] adj_step(adj, u, v, id) ==>
        exists|t: int| 0 <= t < edges.len() && edge_joins(#[trigger] edges[t], u, v, id)
}

/// A path whose every step is one of the edges, ending at `target`.
pub open spec fn path_follows(p: CallPath, edges: Seq<CallEdge>, target: SymbolId) -> bool {
    &&& p.nodes@.len() == p.edges@.len() + 1
    &&& enc_symbol_id(p.nodes@.last()) == enc_symbol_id(target)
    &&& forall|i: int| 0 <= i < p.edges@.len() ==> #[trigger] hop_joined(p, edges, i)
}

/// The `i`-th step of a path is one of the edges.
pub open spec fn hop_joined(p: CallPath, edges: Seq<CallEdge>, i: int) -> bool {
    exists|t: int| 0 <= t < edges.len()
        && edge_joins(#[trigger] edges[t], enc_symbol_id(p.nodes@[i]), enc_symbol_id(p.nodes@[i + 1]), p.edges@[i])
}

/// Each adjacency list entry is stored under its callee's key followed by its
/// edge identifier.
pub open spec fn adj_keyed(adj: Adjacency) -> bool {
    forall|i: int, j: int| 0 <= i < adj.size() && 0 <= j < adj.vals@[i].1.size() ==>
        #[trigger] adj.vals@[i].1.key_view()[j] == enc_symbol_id(adj.vals@[i].1.vals@[j].0).push(adj.vals@[i].1.vals@[j].1.0)
}

proof fn lemma_push_injective(a: Seq<u32>, b: Seq<u32>, x: u32, y: u32)
    requires
        a.push(x) == b.push(y),
    ensures
        a == b,
        x == y,
{
    assert(a.push(x).drop_last() =~= a);
    assert(b.push(y).drop_last() =~= b);
    assert(a.push(x).last() == x);
    assert(b.push(y).last() == y);
}

/// Records the step `caller -> callee` through edge `id`, each step once, ordered;
/// the steps recorded before stay.
fn add_adjacent(adj: &mut Adjacency, ck: Vec<u32>, caller: SymbolId, callee: SymbolId, id: CallEdgeId)
    requires
        adj_wf(*old(adj)),
        adj_keyed(*old(adj)),
        ck@ == enc_symbol_id(caller),
    ensures
        adj_wf(*final(adj)),
        adj_keyed(*final(adj)),
        adj_step(*final(adj), ck@, enc_symbol_id(callee), id),
        forall|u: Seq<u32>, v: Seq<u32>, e: CallEdgeId| #[trigger] adj_step(*final(adj), u, v, e) ==>
            adj_step(*old(adj), u, v, e) || (u == ck@ && v == enc_symbol_id(callee) && e == id),
        forall|u: Seq<u32>, v: Seq<u32>, e: CallEdgeId| #[trigger] adj_step(*old(adj), u, v, e) ==>
            adj_step(*final(adj), u, v, e),
{
    let mut ik = symbol_id_key(&callee);
    ik.push(id.0);
    let ghost oa = *adj;
    match adj.find(ck.as_slice()) {
        Ok(i) => {
            let (c, mut inner) = adj.replace_at(i, (caller, OrdMap::new()));
            let ghost oi = inner;
            let q = inner.insert(ik, (callee, id));
            let _ = adj.replace_at(i, (c, inner));
            proof {
                assert(adj.key_view() =~= oa.key_view());
                assert forall|x: int| 0 <= x < adj.size() implies (#[trigger] adj.vals@[x]).1.wf() by {
                    if x != i {
                        assert(adj.vals@[x] == oa.vals@[x]);
                    }
                }
                assert(adj.vals@[i as int].1.vals@[q as int] == (callee, id));
                assert(enc_symbol_id(adj.vals@[i as int].1.vals@[q as int].0) == enc_symbol_id(callee));
                assert forall|x: int, y: int| 0 <= x < adj.size() && 0 <= y < adj.vals@[x].1.size() implies
                    #[trigger] adj.vals@[x].1.key_view()[y] == enc_symbol_id(adj.vals@[x].1.vals@[y].0).push(adj.vals@[x].1.vals@[y].1.0) by {
                    if x != i {
                        assert(adj.vals@[x] == oa.vals@[x]);
                    } else {
                        let inn = adj.vals@[i as int].1;
                        assert(oa.vals@[x].1 == oi);
                        if oi.contains(ik@) {
                            if y != q {
                                assert(inn.vals@[y] == oi.vals@[y] && inn.key_view()[y] == oi.key_view()[y]);
                            }
                        } else {
                            if y < q {
                                assert(inn.vals@[y] == oi.vals@[y] && inn.key_view()[y] == oi.key_view()[y]);
                            } else if y > q {
                                assert(inn.vals@[y] == oi.vals@[y - 1] && inn.key_view()[y] == oi.key_view()[y - 1]);
                            }
                        }
                    }
                }
                assert forall|u: Seq<u32>, v: Seq<u32>, e: CallEdgeId| #[trigger] adj_step(*adj, u, v, e) implies
                    adj_step(oa, u, v, e) || (u == ck@ && v == enc_symbol_id(callee) && e == id) by {
                    let (x, y) = choose|x: int, y: int| 0 <= x < adj.size() && adj.key_view()[x] == u
                        && 0 <= y < adj.vals@[x].1.vals@.len()
                        && enc_symbol_id(#[trigger] adj.vals@[x].1.vals@[y].0) == v
                        && adj.vals@[x].1.vals@[y].1 == e;
                    if x != i {
                        assert(adj.vals@[x] == oa.vals@[x]);
                        assert(enc_symbol_id(oa.vals@[x].1.vals@[y].0) == v);
                    } else {
                        let inn = adj.vals@[i as int].1;
                        if oi.contains(ik@) {
                            if y != q {
                                assert(inn.vals@[y] == oi.vals@[y]);
                                assert(oa.vals@[x].1 == oi);
                                assert(enc_symbol_id(oa.vals@[x].1.vals@[y].0) == v);
                            }
                        } else {
                            if y < q {
                                assert(inn.vals@[y] == oi.vals@[y]);
                                assert(enc_symbol_id(oa.vals@[x].1.vals@[y].0) == v);
                            } else if y > q {
                                assert(inn.vals@[y] == oi.vals@[y - 1]);
                                assert(enc_symbol_id(oa.vals@[x].1.vals@[y - 1].0) == v);
                            }
                        }
                    }
                }
                assert forall|u: Seq<u32>, v: Seq<u32>, e: CallEdgeId| #[trigger] adj_step(oa, u, v, e) implies
                    adj_step(*adj, u, v, e) by {
                    let (x, y) = choose|x: int, y: int| 0 <= x < oa.size() && oa.key_view()[x] == u
                        && 0 <= y < oa.vals@[x].1.vals@.len()
                        && enc_symbol_id(#[trigger] oa.vals@[x].1.vals@[y].0) == v
                        && oa.vals@[x].1.vals@[y].1 == e;
                    if x != i {
                        assert(adj.vals@[x] == oa.vals@[x]);
                        assert(enc_symbol_id(adj.vals@[x].1.vals@[y].0) == v);
                    } else {
                        let inn = adj.vals@[i as int].1;
                        assert(oa.vals@[x].1 == oi);
                        if oi.contains(ik@) {
                            if y != q {
                                assert(inn.vals@[y] == oi.vals@[y]);
                                assert(enc_symbol_id(adj.vals@[x].1.vals@[y].0) == v);
                            } else {
                                assert(oi.key_view()[y] == ik@);
                                lemma_push_injective(enc_symbol_id(oi.vals@[y].0), enc_symbol_id(callee), oi.vals@[y].1.0, id.0);
                                assert(enc_symbol_id(adj.vals@[x].1.vals@[y].0) == v);
                            }
                        } else {
                            if y < q {
                                assert(inn.vals@[y] == oi.vals@[y]);
                                assert(enc_symbol_id(adj.vals@[x].1.vals@[y].0) == v);
                            } else {
                                assert(inn.vals@[y + 1] == oi.vals@[y]);
                                assert(enc_symbol_id(adj.vals@[x].1.vals@[y + 1].0) == v);
                            }
                        }
                    }
                }
            }
        },
        Err(_) => {
            let mut inner: OrdMap<(SymbolId, CallEdgeId)> = OrdMap::new();
            let _ = inner.insert(ik, (callee, id));
            let p = adj.insert(ck, (caller, inner));
            proof {
                assert forall|x: int| 0 <= x < adj.size() implies (#[trigger] adj.vals@[x]).1.wf() by {
                    if x < p {
                        assert(adj.vals@[x] == oa.vals@[x]);
                    } else if x > p {
                        assert(adj.vals@[x] == oa.vals@[x - 1]);
                    }
                }
                assert(adj.vals@[p as int].1.vals@[0] == (callee, id));
                assert(enc_symbol_id(adj.vals@[p as int].1.vals@[0].0) == enc_symbol_id(callee));
                assert forall|x: int, y: int| 0 <= x < adj.size() && 0 <= y < adj.vals@[x].1.size() implies
                    #[trigger] adj.vals@[x].1.key_view()[y] == enc_symbol_id(adj.vals@[x].1.vals@[y].0).push(adj.vals@[x].1.vals@[y].1.0) by {
                    if x < p {
                        assert(adj.vals@[x] == oa.vals@[x]);
                    } else if x > p {
                        assert(adj.vals@[x] == oa.vals@[x - 1]);
                    }
                }
                assert forall|u: Seq<u32>, v: Seq<u32>, e: CallEdgeId| #[trigger] adj_step(*adj, u, v, e) implies
                    adj_step(oa, u, v, e) || (u == ck@ && v == enc_symbol_id(callee) && e == id) by {
                    let (x, y) = choose|x: int, y: int| 0 <= x < adj.size() && adj.key_view()[x] == u
                        && 0 <= y < adj.vals@[x].1.vals@.len()
                        && enc_symbol_id(#[trigger] adj.vals@[x].1.vals@[y].0) == v
                        && adj.vals@[x].1.vals@[y].1 == e;
                    if x < p {
                        assert(adj.vals@[x] == oa.vals@[x]);
                        assert(adj.key_view()[x] == oa.key_view()[x]);
                        assert(enc_symbol_id(oa.vals@[x].1.vals@[y].0) == v);
                    } else if x > p {
                        assert(adj.vals@[x] == oa.vals@[x - 1]);
                        assert(adj.key_view()[x] == oa.key_view()[x - 1]);
                        assert(enc_symbol_id(oa.vals@[x - 1].1.vals@[y].0) == v);
                    }
                }
                assert forall|u: Seq<u32>, v: Seq<u32>, e: CallEdgeId| #[trigger] adj_step(oa, u, v, e) implies
                    adj_step(*adj, u, v, e) by {
                    let (x, y) = choose|x: int, y: int| 0 <= x < oa.size() && oa.key_view()[x] == u
                        && 0 <= y < oa.vals@[x].1.vals@.len()
                        && enc_symbol_id(#[trigger] oa.vals@[x].1.vals@[y].0) == v
                        && oa.vals@[x].1.vals@[y].1 == e;
                    if x < p {
                        assert(adj.vals@[x] == oa.vals@[x]);
                        assert(adj.key_view()[x] == oa.key_view()[x]);
                        assert(enc_symbol_id(adj.vals@[x].1.vals@[y].0) == v);
                    } else {
                        assert(adj.vals@[x + 1] == oa.vals@[x]);
                        assert(adj.key_view()[x + 1] == oa.key_view()[x]);
                        assert(enc_symbol_id(adj.vals@[x + 1].1.vals@[y].0) == v);
                    }
                }
            }
        },
    }
}

/// Every symbol held is the caller of one of the edges that has a callee.
pub open spec fn callers_from_edges(m: OrdMap<SymbolId>, edges: Seq<CallEdge>) -> bool {
    forall|i: int| 0 <= i < m.size() ==> calls_out(edges, #[trigger] m.key_view()[i]) && m.key_view()[i] == enc_symbol_id(m.vals@[i])
}

/// Some edge with a callee has a caller with this key.
pub open spec fn calls_out(edges: Seq<CallEdge>, k: Seq<u32>) -> bool {
    exists|x: int| 0 <= x < edges.len() && (#[trigger] edges[x]).callee is Some && enc_symbol_id(edges[x].caller) == k
}

/// Edge `e` leads from `u` to `v` (by identifier keys).
pub open spec fn edge_goes(e: CallEdge, u: Seq<u32>, v: Seq<u32>) -> bool {
    e.callee matches Some(c) && enc_symbol_id(e.caller) == u && enc_symbol_id(c) == v
}

/// Edge `e` has a callee with key `k`.
pub open spec fn edge_calls(e: CallEdge, k: Seq<u32>) -> bool {
    e.callee matches Some(c) && enc_symbol_id(c) == k
}

/// Some edge among the first `n` leads from `u` to `v` (by identifier keys).
pub open spec fn edge_step_before(edges: Seq<CallEdge>, n: int, u: Seq<u32>, v: Seq<u32>) -> bool {
    exists|x: int| 0 <= x < n && x < edges.len() && edge_goes(#[trigger] edges[x], u, v)
}

/// Some edge leads from `u` to `v` (by identifier keys).
pub open spec fn edge_step(edges: Seq<CallEdge>, u: Seq<u32>, v: Seq<u32>) -> bool {
    edge_step_before(edges, edges.len() as int, u, v)
}

/// A walk along the edges from `s` to `t`, by identifier keys.
pub open spec fn edge_walk(edges: Seq<CallEdge>, w: Seq<Seq<u32>>, s: Seq<u32>, t: Seq<u32>) -> bool {
    &&& w.len() >= 1
    &&& w[0] == s
    &&& w.last() == t
    &&& forall|i: int| 0 <= i < w.len() - 1 ==> #[trigger] edge_step(edges, w[i], w[i + 1])
}

/// Whether some walk along the edges leads from `s` to `t`.
pub open spec fn edge_reaches(edges: Seq<CallEdge>, s: Seq<u32>, t: Seq<u32>) -> bool {
    exists|w: Seq<Seq<u32>>| #[trigger] edge_walk(edges, w, s, t)
}

/// Some edge among the first `n` has a callee with this key.
pub open spec fn called_before(edges: Seq<CallEdge>, n: int, k: Seq<u32>) -> bool {
    exists|x: int| 0 <= x < n && x < edges.len() && edge_calls(#[trigger] edges[x], k)
}

/// Some edge among the first `n` with a callee has a caller with this key.
pub open spec fn calls_out_before(edges: Seq<CallEdge>, n: int, k: Seq<u32>) -> bool {
    exists|x: int| 0 <= x < n && x < edges.len() && (#[trigger] edges[x]).callee is Some && enc_symbol_id(edges[x].caller) == k
}

/// A top-level caller: the caller of an edge, and no edge's callee.
pub open spec fn top_level(edges: Seq<CallEdge>, k: Seq<u32>) -> bool {
    calls_out(edges, k) && !called_before(edges, edges.len() as int, k)
}

/// `k` is the least caller (by identifier key) other than `tk`.
pub open spec fn first_other_caller(edges: Seq<CallEdge>, tk: Seq<u32>, k: Seq<u32>) -> bool {
    &&& calls_out(edges, k)
    &&& k != tk
    &&& forall|k2: Seq<u32>| #[trigger] calls_out(edges, k2) && k2 != tk ==> !lex_lt(k2, k)
}

/// The key of the node a path starts from.
pub open spec fn path_start(p: CallPath) -> Seq<u32> {
    enc_symbol_id(p.nodes@[0])
}

/// The paths a reverse search reports: each follows the edges to the target and
/// is a shortest walk from where it starts; they start at distinct callers, in
/// identifier order. When top-level callers exist, the paths start at exactly
/// those of them that reach the target; otherwise (every caller is also called)
/// at most one path starts, from the least caller other than the target, and it
/// does whenever that caller reaches the target.
pub open spec fn caller_paths_ok(r: Seq<CallPath>, edges: Seq<CallEdge>, target: SymbolId) -> bool {
    let tk = enc_symbol_id(target);
    &&& forall|i: int| 0 <= i < r.len() ==> path_follows(#[trigger] r[i], edges, target)
    &&& forall|i: int| 0 <= i < r.len() ==> calls_out(edges, path_start(#[trigger] r[i]))
    &&& forall|i: int, w: Seq<Seq<u32>>| 0 <= i < r.len() && #[trigger] edge_walk(edges, w, path_start(r[i]), tk)
        ==> r[i].edges@.len() < w.len()
    &&& forall|i: int, j: int| 0 <= i < j < r.len() ==> lex_lt(path_start(#[trigger] r[i]), path_start(#[trigger] r[j]))
    &&& (exists|k: Seq<u32>| #[trigger] top_level(edges, k)) ==> {
        &&& forall|i: int| 0 <= i < r.len() ==> top_level(edges, path_start(#[trigger] r[i]))
        &&& forall|k: Seq<u32>| top_level(edges, k) && #[trigger] edge_reaches(edges, k, tk) ==>
            exists|i: int| 0 <= i < r.len() && path_start(#[trigger] r[i]) == k
    }
    &&& !(exists|k: Seq<u32>| #[trigger] top_level(edges, k)) ==> {
        &&& r.len() <= 1
        &&& forall|i: int| 0 <= i < r.len() ==> first_other_caller(edges, tk, path_start(#[trigger] r[i]))
        &&& forall|k: Seq<u32>| first_other_caller(edges, tk, k) && #[trigger] edge_reaches(edges, k, tk) ==> r.len() == 1
    }
}

/// When the adjacency holds exactly the steps of the edges, walks through either
/// are the same.
proof fn lemma_walks_agree(adj: Adjacency, edges: Seq<CallEdge>)
    requires
        forall|u: Seq<u32>, v: Seq<u32>| #[trigger] adj_edge(adj, u, v) <==> edge_step(edges, u, v),
    ensures
        forall|w: Seq<Seq<u32>>, s: Seq<u32>, t: Seq<u32>| #[trigger] adj_walk(adj, w, s, t) <==> edge_walk(edges, w, s, t),
        forall|s: Seq<u32>, t: Seq<u32>| #[trigger] adj_reaches(adj, s, t) <==> edge_reaches(edges, s, t),
{
    assert forall|w: Seq<Seq<u32>>, s: Seq<u32>, t: Seq<u32>| #[trigger] adj_walk(adj, w, s, t) <==> edge_walk(edges, w, s, t) by {
        if adj_walk(adj, w, s, t) {
            assert forall|i: int| 0 <= i < w.len() - 1 implies #[trigger] edge_step(edges, w[i], w[i + 1]) by {
                assert(adj_edge(adj, w[i], w[i + 1]));
            }
        }
        if edge_walk(edges, w, s, t) {
            assert forall|i: int| 0 <= i < w.len() - 1 implies #[trigger] adj_edge(adj, w[i], w[i + 1]) by {
                assert(edge_step(edges, w[i], w[i + 1]));
            }
        }
    }
    assert forall|s: Seq<u32>, t: Seq<u32>| #[trigger] adj_reaches(adj, s, t) <==> edge_reaches(edges, s, t) by {
        if adj_reaches(adj, s, t) {
            let w = choose|w: Seq<Seq<u32>>| #[trigger] adj_walk(adj, w, s, t);
            assert(edge_walk(edges, w, s, t));
        }
        if edge_reaches(edges, s, t) {
            let w = choose|w: Seq<Seq<u32>>| #[trigger] edge_walk(edges, w, s, t);
            assert(adj_walk(adj, w, s, t));
        }
    }
}

/// One more edge extends the steps, callers and callees seen by exactly its own.
proof fn lemma_before_extend(edges: Seq<CallEdge>, t: int)
    requires
        0 <= t < edges.len(),
    ensures
        forall|u: Seq<u32>, v: Seq<u32>| #[trigger] edge_step_before(edges, t + 1, u, v) <==>
            (edge_step_before(edges, t, u, v) || edge_goes(edges[t], u, v)),
        forall|k: Seq<u32>| #[trigger] calls_out_before(edges, t + 1, k) <==>
            (calls_out_before(edges, t, k) || (edges[t].callee is Some && enc_symbol_id(edges[t].caller) == k)),
        forall|k: Seq<u32>| #[trigger] called_before(edges, t + 1, k) <==> (called_before(edges, t, k) || edge_calls(edges[t], k)),
{
    assert forall|u: Seq<u32>, v: Seq<u32>| #[trigger] edge_step_before(edges, t + 1, u, v) <==>
        (edge_step_before(edges, t, u, v) || edge_goes(edges[t], u, v)) by {
        if edge_step_before(edges, t + 1, u, v) {
            let x = choose|x: int| 0 <= x < t + 1 && x < edges.len() && edge_goes(#[trigger] edges[x], u, v);
            if x < t {
                assert(edge_step_before(edges, t, u, v));
            }
        }
        if edge_step_before(edges, t, u, v) {
            let x = choose|x: int| 0 <= x < t && x < edges.len() && edge_goes(#[trigger] edges[x], u, v);
            assert(0 <= x < t + 1);
        }
        if edge_goes(edges[t], u, v) {
            assert(0 <= t < t + 1);
        }
    }
    assert forall|k: Seq<u32>| #[trigger] calls_out_before(edges, t + 1, k) <==>
        (calls_out_before(edges, t, k) || (edges[t].callee is Some && enc_symbol_id(edges[t].caller) == k)) by {
        if calls_out_before(edges, t + 1, k) {
            let x = choose|x: int| 0 <= x < t + 1 && x < edges.len() && (#[trigger] edges[x]).callee is Some
                && enc_symbol_id(edges[x].caller) == k;
            if x < t {
                assert(calls_out_before(edges, t, k));
            }
        }
        if calls_out_before(edges, t, k) {
            let x = choose|x: int| 0 <= x < t && x < edges.len() && (#[trigger] edges[x]).callee is Some
                && enc_symbol_id(edges[x].caller) == k;
            assert(0 <= x < t + 1);
        }
        if edges[t].callee is Some && enc_symbol_id(edges[t].caller) == k {
            assert(0 <= t < t + 1);
        }
    }
    assert forall|k: Seq<u32>| #[trigger] called_before(edges, t + 1, k) <==> (called_before(edges, t, k) || edge_calls(edges[t], k)) by {
        if called_before(edges, t + 1, k) {
            let x = choose|x: int| 0 <= x < t + 1 && x < edges.len() && edge_calls(#[trigger] edges[x], k);
            if x < t {
                assert(called_before(edges, t, k));
            }
        }
        if called_before(edges, t, k) {
            let x = choose|x: int| 0 <= x < t && x < edges.len() && edge_calls(#[trigger] edges[x], k);
            assert(0 <= x < t + 1);
        }
        if edge_calls(edges[t], k) {
            assert(0 <= t < t + 1);
        }
    }
}

/// Recording the step of edge `t` keeps the adjacency equal to the steps of the
/// edges seen.
proof fn lemma_adj_extend(oa: Adjacency, na: Adjacency, edges: Seq<CallEdge>, t: int, ck: Seq<u32>, cv: Seq<u32>)
    requires
        0 <= t < edges.len(),
        edge_goes(edges[t], ck, cv),
        forall|u: Seq<u32>, v: Seq<u32>, e: CallEdgeId| #[trigger] adj_step(na, u, v, e) ==>
            adj_step(oa, u, v, e) || (u == ck && v == cv && e == edges[t].id),
        forall|u: Seq<u32>, v: Seq<u32>, e: CallEdgeId| #[trigger] adj_step(oa, u, v, e) ==> adj_step(na, u, v, e),
        adj_step(na, ck, cv, edges[t].id),
        adj_from_edges(oa, edges),
        forall|u: Seq<u32>, v: Seq<u32>| #[trigger] adj_edge(oa, u, v) <==> edge_step_before(edges, t, u, v),
    ensures
        adj_from_edges(na, edges),
        forall|u: Seq<u32>, v: Seq<u32>| #[trigger] adj_edge(na, u, v) <==> edge_step_before(edges, t + 1, u, v),
{
    lemma_before_extend(edges, t);
    assert forall|u: Seq<u32>, v: Seq<u32>, id: CallEdgeId| #[trigger] adj_step(na, u, v, id) implies
        exists|x: int| 0 <= x < edges.len() && edge_joins(#[trigger] edges[x], u, v, id) by {
        if !adj_step(oa, u, v, id) {
            assert(edge_joins(edges[t], u, v, id));
        }
    }
    assert forall|u: Seq<u32>, v: Seq<u32>| #[trigger] adj_edge(na, u, v) <==> edge_step_before(edges, t + 1, u, v) by {
        if adj_edge(na, u, v) {
            let e = choose|e: CallEdgeId| #[trigger] adj_step(na, u, v, e);
            if adj_step(oa, u, v, e) {
                assert(adj_edge(oa, u, v));
            }
        }
        if edge_step_before(edges, t, u, v) {
            assert(adj_edge(oa, u, v));
            let e = choose|e: CallEdgeId| #[trigger] adj_step(oa, u, v, e);
            assert(adj_step(na, u, v, e));
        }
        if edge_goes(edges[t], u, v) {
            assert(adj_step(na, u, v, edges[t].id));
        }
    }
}

/// After `insert_if_absent`, the map holds its keys and the one given.
proof fn lemma_insert_if_absent_contains<V>(a: OrdMap<V>, b: OrdMap<V>, key: Seq<u32>, r: Option<usize>)
    requires
        r is None ==> b == a && a.contains(key),
        r matches Some(p) ==> p <= a.size() && b.key_view() == a.key_view().insert(p as int, key),
    ensures
        forall|k: Seq<u32>| #[trigger] b.contains(k) <==> (a.contains(k) || k == key),
{
    match r {
        Some(p) => {
            assert forall|k: Seq<u32>| #[trigger] b.contains(k) <==> (a.contains(k) || k == key) by {
                lemma_insert_contains(a, b, key, p as int, k);
            }
        },
        None => {},
    }
}

/// The adjacency of the edges that have a callee, with their callers and their
/// callees, each by identifier key.
fn index_edges(edges: &[CallEdge]) -> (r: (Adjacency, OrdMap<SymbolId>, OrdMap<SymbolId>))
    ensures
        adj_wf(r.0),
        adj_from_edges(r.0, edges@),
        forall|u: Seq<u32>, v: Seq<u32>| #[trigger] adj_edge(r.0, u, v) <==> edge_step(edges@, u, v),
        r.1.wf(),
        r.2.wf(),
        callers_from_edges(r.1, edges@),
        forall|k: Seq<u32>| #[trigger] r.1.contains(k) <==> calls_out(edges@, k),
        forall|k: Seq<u32>| #[trigger] r.2.contains(k) <==> called_before(edges@, edges@.len() as int, k),
{
    let mut adj: Adjacency = OrdMap::new();
    let mut callers: OrdMap<SymbolId> = OrdMap::new();
    let mut callees: OrdMap<SymbolId> = OrdMap::new();
    let n = edges.len();
    let mut t: usize = 0;
    while t < n
        invariant
            t <= n,
            n == edges@.len(),
            adj_wf(adj),
            adj_keyed(adj),
            adj_from_edges(adj, edges@),
            forall|u: Seq<u32>, v: Seq<u32>| #[trigger] adj_edge(adj, u, v) <==> edge_step_before(edges@, t as int, u, v),
            callers.wf(),
            callees.wf(),
            callers_from_edges(callers, edges@),
            forall|k: Seq<u32>| #[trigger] callers.contains(k) <==> calls_out_before(edges@, t as int, k),
            forall|k: Seq<u32>| #[trigger] callees.contains(k) <==> called_before(edges@, t as int, k),
        decreases n - t,
    {
        proof {
            lemma_before_extend(edges@, t as int);
        }
        match &edges[t].callee {
            Some(c) => {
                let ck = symbol_id_key(&edges[t].caller);
                let ghost oa = adj;
                add_adjacent(&mut adj, ck, edges[t].caller.clone(), c.clone(), edges[t].id);
                proof {
                    lemma_adj_extend(oa, adj, edges@, t as int, enc_symbol_id(edges@[t as int].caller), enc_symbol_id(*c));
                }
                let ghost oc = callers;
                let r = callers.insert_if_absent(symbol_id_key(&edges[t].caller), edges[t].caller.clone());
                proof {
                    lemma_insert_if_absent_contains(oc, callers, enc_symbol_id(edges@[t as int].caller), r);
                    match r {
                        Some(p) => {
                            assert forall|i: int| 0 <= i < callers.size() implies calls_out(edges@, #[trigger] callers.key_view()[i])
                                && callers.key_view()[i] == enc_symbol_id(callers.vals@[i]) by {
                                if i < p {
                                    assert(callers.key_view()[i] == oc.key_view()[i] && callers.vals@[i] == oc.vals@[i]);
                                } else if i > p {
                                    assert(callers.key_view()[i] == oc.key_view()[i - 1] && callers.vals@[i] == oc.vals@[i - 1]);
                                } else {
                                    assert(edges@[t as int].callee is Some);
                                    assert(calls_out(edges@, enc_symbol_id(edges@[t as int].caller)));
                                }
                            }
                        },
                        None => {},
                    }
                }
                let ghost oe = callees;
                let r2 = callees.insert_if_absent(symbol_id_key(c), c.clone());
                proof {
                    lemma_insert_if_absent_contains(oe, callees, enc_symbol_id(*c), r2);
                    assert(edge_calls(edges@[t as int], enc_symbol_id(*c)));
                }
            },
            None => {},
        }
        t = t + 1;
    }
    proof {
        assert forall|k: Seq<u32>| #[trigger] callers.contains(k) <==> calls_out(edges@, k) by {
            if calls_out(edges@, k) {
                let x = choose|x: int| 0 <= x < edges@.len() && (#[trigger] edges@[x]).callee is Some && enc_symbol_id(edges@[x].caller) == k;
                assert(calls_out_before(edges@, n as int, k));
            }
        }
    }
    (adj, callers, callees)
}

/// The top-level callers (callers that no edge calls), in identifier order.
fn top_level_roots(edges: &[CallEdge], callers: &OrdMap<SymbolId>, callees: &OrdMap<SymbolId>) -> (roots: Vec<SymbolId>)
    requires
        callers.wf(),
        callees.wf(),
        callers_from_edges(*callers, edges@),
        forall|k: Seq<u32>| #[trigger] callers.contains(k) <==> calls_out(edges@, k),
        forall|k: Seq<u32>| #[trigger] callees.contains(k) <==> called_before(edges@, edges@.len() as int, k),
    ensures
        forall|j: int| 0 <= j < roots@.len() ==> top_level(edges@, enc_symbol_id(#[trigger] roots@[j])),
        forall|a: int, b: int| 0 <= a < b < roots@.len() ==>
            lex_lt(enc_symbol_id(#[trigger] roots@[a]), enc_symbol_id(#[trigger] roots@[b])),
        forall|k: Seq<u32>| #[trigger] top_level(edges@, k) ==> exists|a: int| 0 <= a < roots@.len() && enc_symbol_id(#[trigger] roots@[a]) == k,
{
    let mut roots: Vec<SymbolId> = Vec::new();
    let ghost mut origin: Seq<int> = Seq::empty();
    let nc = callers.len();
    let mut i: usize = 0;
    while i < nc
        invariant
            i <= nc,
            nc == callers.size(),
            callers.wf(),
            callees.wf(),
            forall|x: int| 0 <= x < callers.size() ==> #[trigger] callers.key_view()[x] == enc_symbol_id(callers.vals@[x]),
            origin.len() == roots@.len(),
            forall|a: int| 0 <= a < roots@.len() ==> 0 <= #[trigger] origin[a] < i
                && enc_symbol_id(roots@[a]) == callers.key_view()[origin[a]]
                && !callees.contains(callers.key_view()[origin[a]]),
            forall|a: int, b: int| 0 <= a < b < roots@.len() ==> #[trigger] origin[a] < #[trigger] origin[b],
            forall|x: int| 0 <= x < i && !callees.contains(#[trigger] callers.key_view()[x]) ==>
                exists|a: int| 0 <= a < origin.len() && #[trigger] origin[a] == x,
        decreases nc - i,
    {
        let k = callers.key_at(i);
        if callees.find(k.as_slice()).is_err() {
            let c = callers.value_at(i).clone();
            let ghost or = roots@;
            let ghost oo = origin;
            roots.push(c);
            proof {
                origin = origin.push(i as int);
                assert(callers.key_view()[i as int] == enc_symbol_id(callers.vals@[i as int]));
                assert forall|a: int| 0 <= a < roots@.len() implies 0 <= #[trigger] origin[a] < i + 1
                    && enc_symbol_id(roots@[a]) == callers.key_view()[origin[a]]
                    && !callees.contains(callers.key_view()[origin[a]]) by {
                    if a < or.len() {
                        assert(roots@[a] == or[a] && origin[a] == oo[a]);
                    }
                }
                assert forall|x: int| 0 <= x < i + 1 && !callees.contains(#[trigger] callers.key_view()[x]) implies
                    exists|a: int| 0 <= a < origin.len() && #[trigger] origin[a] == x by {
                    if x < i {
                        let a = choose|a: int| 0 <= a < oo.len() && #[trigger] oo[a] == x;
                        assert(origin[a] == oo[a]);
                    } else {
                        assert(origin[oo.len() as int] == x);
                    }
                }
            }
        } else {
            proof {
                assert(callees.contains(callers.key_view()[i as int]));
                assert forall|x: int| 0 <= x < i + 1 && !callees.contains(#[trigger] callers.key_view()[x]) implies
                    exists|a: int| 0 <= a < origin.len() && #[trigger] origin[a] == x by {
                }
            }
        }
        i = i + 1;
    }
    proof {
        assert forall|j: int| 0 <= j < roots@.len() implies top_level(edges@, enc_symbol_id(#[trigger] roots@[j])) by {
            let x = origin[j];
            assert(callers.contains(callers.key_view()[x]));
        }
        assert forall|a: int, b: int| 0 <= a < b < roots@.len() implies
            lex_lt(enc_symbol_id(#[trigger] roots@[a]), enc_symbol_id(#[trigger] roots@[b])) by {
            assert(origin[a] < origin[b]);
        }
        assert forall|k: Seq<u32>| #[trigger] top_level(edges@, k) implies
            exists|a: int| 0 <= a < roots@.len() && enc_symbol_id(#[trigger] roots@[a]) == k by {
            assert(callers.contains(k));
            let x = choose|x: int| 0 <= x < callers.key_view().len() && callers.key_view()[x] == k;
            assert(!callees.contains(callers.key_view()[x]));
            let a = choose|a: int| 0 <= a < origin.len() && #[trigger] origin[a] == x;
            assert(enc_symbol_id(roots@[a]) == k);
        }
    }
    roots
}

/// The least caller other than the target, if there is one.
fn first_other_root(edges: &[CallEdge], callers: &OrdMap<SymbolId>, target: &SymbolId) -> (roots: Vec<SymbolId>)
    requires
        callers.wf(),
        callers_from_edges(*callers, edges@),
        forall|k: Seq<u32>| #[trigger] callers.contains(k) <==> calls_out(edges@, k),
    ensures
        roots@.len() <= 1,
        roots@.len() == 1 ==> first_other_caller(edges@, enc_symbol_id(*target), enc_symbol_id(roots@[0])),
        roots@.len() == 0 ==> forall|k: Seq<u32>| !#[trigger] first_other_caller(edges@, enc_symbol_id(*target), k),
{
    let ghost tkv = enc_symbol_id(*target);
    let mut roots: Vec<SymbolId> = Vec::new();
    let nc = callers.len();
    let tk = symbol_id_key(target);
    let mut i: usize = 0;
    while i < nc && roots.len() == 0
        invariant
            nc == callers.size(),
            i <= nc,
            callers.wf(),
            callers_from_edges(*callers, edges@),
            tk@ == tkv,
            forall|k: Seq<u32>| #[trigger] callers.contains(k) <==> calls_out(edges@, k),
            roots@.len() <= 1,
            roots@.len() == 0 ==> forall|x: int| 0 <= x < i ==> #[trigger] callers.key_view()[x] == tkv,
            roots@.len() == 1 ==> first_other_caller(edges@, tkv, enc_symbol_id(roots@[0])),
        decreases nc - i,
    {
        let k = callers.key_at(i);
        if compare_codes(k.as_slice(), tk.as_slice()) != KeyOrder::Equal {
            let c = callers.value_at(i).clone();
            proof {
                assert(callers.key_view()[i as int] == enc_symbol_id(callers.vals@[i as int]));
                let ki = callers.key_view()[i as int];
                assert(calls_out(edges@, ki));
                assert forall|k2: Seq<u32>| #[trigger] calls_out(edges@, k2) && k2 != tkv implies !lex_lt(k2, ki) by {
                    assert(callers.contains(k2));
                    let x = choose|x: int| 0 <= x < callers.key_view().len() && callers.key_view()[x] == k2;
                    if x < i {
                        assert(callers.key_view()[x] == tkv);
                    } else if x == i {
                        crate::order::lemma_lex_irreflexive(ki);
                    } else {
                        assert(lex_lt(ki, k2));
                        crate::order::lemma_lex_asymmetric(ki, k2);
                    }
                }
            }
            roots.push(c);
        }
        i = i + 1;
    }
    proof {
        if roots@.len() == 0 {
            assert forall|k: Seq<u32>| !#[trigger] first_other_caller(edges@, tkv, k) by {
                if first_other_caller(edges@, tkv, k) {
                    assert(callers.contains(k));
                    let x = choose|x: int| 0 <= x < callers.key_view().len() && callers.key_view()[x] == k;
                    assert(callers.key_view()[x] == tkv);
                }
            }
        }
    }
    roots
}

/// A path starts at one of the roots.
pub open spec fn starts_at_root(p: CallPath, roots: Seq<SymbolId>) -> bool {
    exists|a: int| 0 <= a < roots.len() && path_start(p) == enc_symbol_id(#[trigger] roots[a])
}

/// A path through an adjacency made of the edges follows the edges.
proof fn lemma_through_follows(p: CallPath, adj: Adjacency, edges: Seq<CallEdge>, source: SymbolId, target: SymbolId)
    requires
        path_through(p, adj, source, target),
        adj_from_edges(adj, edges),
    ensures
        path_follows(p, edges, target),
{
    assert forall|i: int| 0 <= i < p.edges@.len() implies #[trigger] hop_joined(p, edges, i) by {
        assert(adj_step(adj, enc_symbol_id(p.nodes@[i]), enc_symbol_id(p.nodes@[i + 1]), p.edges@[i]));
    }
}

/// A shortest path from each root, in the roots' order, for the roots that reach
/// the target.
fn paths_from_roots(target: &SymbolId, edges: &[CallEdge], adj: &Adjacency, roots: &Vec<SymbolId>) -> (paths: Vec<CallPath>)
    requires
        adj_wf(*adj),
        adj_from_edges(*adj, edges@),
        forall|u: Seq<u32>, v: Seq<u32>| #[trigger] adj_edge(*adj, u, v) <==> edge_step(edges@, u, v),
        forall|a: int, b: int| 0 <= a < b < roots@.len() ==>
            lex_lt(enc_symbol_id(#[trigger] roots@[a]), enc_symbol_id(#[trigger] roots@[b])),
    ensures
        forall|j: int| 0 <= j < paths@.len() ==> path_follows(#[trigger] paths@[j], edges@, *target),
        forall|j: int, w: Seq<Seq<u32>>| 0 <= j < paths@.len() && #[trigger] edge_walk(edges@, w, path_start(paths@[j]), enc_symbol_id(*target))
            ==> paths@[j].edges@.len() < w.len(),
        forall|j: int| 0 <= j < paths@.len() ==> #[trigger] starts_at_root(paths@[j], roots@),
        forall|a: int, b: int| 0 <= a < b < paths@.len() ==> lex_lt(path_start(#[trigger] paths@[a]), path_start(#[trigger] paths@[b])),
        forall|a: int| 0 <= a < roots@.len() && #[trigger] edge_reaches(edges@, enc_symbol_id(roots@[a]), enc_symbol_id(*target)) ==>
            exists|j: int| 0 <= j < paths@.len() && path_start(#[trigger] paths@[j]) == enc_symbol_id(roots@[a]),
{
    let ghost tkv = enc_symbol_id(*target);
    let mut paths: Vec<CallPath> = Vec::new();
    let ghost mut origin: Seq<int> = Seq::empty();
    let nr = roots.len();
    let mut i: usize = 0;
    while i < nr
        invariant
            i <= nr,
            nr == roots@.len(),
            adj_wf(*adj),
            tkv == enc_symbol_id(*target),
            origin.len() == paths@.len(),
            forall|j: int| 0 <= j < paths@.len() ==> 0 <= #[trigger] origin[j] < i
                && path_through(paths@[j], *adj, roots@[origin[j]], *target),
            forall|a: int, b: int| 0 <= a < b < paths@.len() ==> #[trigger] origin[a] < #[trigger] origin[b],
            forall|j: int, w: Seq<Seq<u32>>| 0 <= j < paths@.len() && #[trigger] adj_walk(*adj, w, enc_symbol_id(roots@[origin[j]]), tkv)
                ==> paths@[j].edges@.len() < w.len(),
            forall|a: int| 0 <= a < i && #[trigger] adj_reaches(*adj, enc_symbol_id(roots@[a]), tkv) ==>
                exists|j: int| 0 <= j < origin.len() && #[trigger] origin[j] == a,
        decreases nr - i,
    {
        let ghost op = paths@;
        let ghost oo = origin;
        match shortest_path(&roots[i], target, adj) {
            Some(p) => {
                paths.push(p);
                proof {
                    origin = origin.push(i as int);
                    assert forall|j: int| 0 <= j < paths@.len() implies 0 <= #[trigger] origin[j] < i + 1
                        && path_through(paths@[j], *adj, roots@[origin[j]], *target) by {
                        if j < op.len() {
                            assert(paths@[j] == op[j] && origin[j] == oo[j]);
                        }
                    }
                    assert forall|j: int, w: Seq<Seq<u32>>| 0 <= j < paths@.len()
                        && #[trigger] adj_walk(*adj, w, enc_symbol_id(roots@[origin[j]]), tkv) implies paths@[j].edges@.len() < w.len() by {
                        if j < op.len() {
                            assert(paths@[j] == op[j] && origin[j] == oo[j]);
                        }
                    }
                    assert forall|a: int| 0 <= a < i + 1 && #[trigger] adj_reaches(*adj, enc_symbol_id(roots@[a]), tkv) implies
                        exists|j: int| 0 <= j < origin.len() && #[trigger] origin[j] == a by {
                        if a < i {
                            let j = choose|j: int| 0 <= j < oo.len() && #[trigger] oo[j] == a;
                            assert(origin[j] == oo[j]);
                        } else {
                            assert(origin[oo.len() as int] == a);
                        }
                    }
                }
            },
            None => {},
        }
        i = i + 1;
    }
    proof {
        lemma_walks_agree(*adj, edges@);
        assert forall|j: int| 0 <= j < paths@.len() implies path_follows(#[trigger] paths@[j], edges@, *target) by {
            lemma_through_follows(paths@[j], *adj, edges@, roots@[origin[j]], *target);
        }
        assert forall|j: int, w: Seq<Seq<u32>>| 0 <= j < paths@.len() && #[trigger] edge_walk(edges@, w, path_start(paths@[j]), tkv)
            implies paths@[j].edges@.len() < w.len() by {
            assert(path_through(paths@[j], *adj, roots@[origin[j]], *target));
            assert(adj_walk(*adj, w, enc_symbol_id(roots@[origin[j]]), tkv));
        }
        assert forall|j: int| 0 <= j < paths@.len() implies #[trigger] starts_at_root(paths@[j], roots@) by {
            assert(path_through(paths@[j], *adj, roots@[origin[j]], *target));
            assert(path_start(paths@[j]) == enc_symbol_id(roots@[origin[j]]));
        }
        assert forall|a: int, b: int| 0 <= a < b < paths@.len() implies lex_lt(path_start(#[trigger] paths@[a]), path_start(#[trigger] paths@[b])) by {
            assert(origin[a] < origin[b]);
            assert(path_through(paths@[a], *adj, roots@[origin[a]], *target));
            assert(path_through(paths@[b], *adj, roots@[origin[b]], *target));
            assert(lex_lt(enc_symbol_id(roots@[origin[a]]), enc_symbol_id(roots@[origin[b]])));
        }
        assert forall|a: int| 0 <= a < roots@.len() && #[trigger] edge_reaches(edges@, enc_symbol_id(roots@[a]), tkv) implies
            exists|j: int| 0 <= j < paths@.len() && path_start(#[trigger] paths@[j]) == enc_symbol_id(roots@[a]) by {
            assert(adj_reaches(*adj, enc_symbol_id(roots@[a]), tkv));
            let j = choose|j: int| 0 <= j < origin.len() && #[trigger] origin[j] == a;
            assert(path_through(paths@[j], *adj, roots@[origin[j]], *target));
        }
    }
    paths
}

/// For a reverse search: one shortest path to `target` from each top-level caller
/// (a caller of an edge that is no edge's callee) that reaches it, in identifier
/// order; when every caller is also called (a cycle), from the least caller that
/// is not the target.
pub fn build_caller_paths(target: &SymbolId, edges: &[CallEdge]) -> (r: Vec<CallPath>)
    ensures
        caller_paths_ok(r@, edges@, *target),
{
    let ghost tkv = enc_symbol_id(*target);
    let (adj, callers, callees) = index_edges(edges);
    let top = top_level_roots(edges, &callers, &callees);
    let ghost any_top = top@.len() > 0;
    proof {
        assert((exists|k: Seq<u32>| #[trigger] top_level(edges@, k)) <==> any_top) by {
            if top@.len() > 0 {
                assert(top_level(edges@, enc_symbol_id(top@[0])));
            }
        }
    }
    let roots = if top.len() > 0 { top } else { first_other_root(edges, &callers, target) };
    proof {
        assert forall|j: int| 0 <= j < roots@.len() implies calls_out(edges@, enc_symbol_id(#[trigger] roots@[j])) by {
            if !any_top {
                assert(j == 0);
            }
        }
    }
    let paths = paths_from_roots(target, edges, &adj, &roots);
    proof {
        let r = paths@;
        lemma_walks_agree(adj, edges@);
        assert forall|j: int| 0 <= j < r.len() implies calls_out(edges@, path_start(#[trigger] r[j])) by {
            assert(starts_at_root(r[j], roots@));
            let a = choose|a: int| 0 <= a < roots@.len() && path_start(r[j]) == enc_symbol_id(#[trigger] roots@[a]);
            assert(calls_out(edges@, enc_symbol_id(roots@[a])));
        }
        if any_top {
            assert forall|j: int| 0 <= j < r.len() implies top_level(edges@, path_start(#[trigger] r[j])) by {
                assert(starts_at_root(r[j], roots@));
            let a = choose|a: int| 0 <= a < roots@.len() && path_start(r[j]) == enc_symbol_id(#[trigger] roots@[a]);
                assert(top_level(edges@, enc_symbol_id(roots@[a])));
            }
            assert forall|k: Seq<u32>| top_level(edges@, k) && #[trigger] edge_reaches(edges@, k, tkv) implies
                exists|j: int| 0 <= j < r.len() && path_start(#[trigger] r[j]) == k by {
                let a = choose|a: int| 0 <= a < roots@.len() && enc_symbol_id(#[trigger] roots@[a]) == k;
                assert(edge_reaches(edges@, enc_symbol_id(roots@[a]), tkv));
            }
        } else {
            assert(r.len() <= 1) by {
                if r.len() > 1 {
                    assert(lex_lt(path_start(r[0]), path_start(r[1])));
                    assert(starts_at_root(r[0], roots@));
                    assert(starts_at_root(r[1], roots@));
                    let a = choose|a: int| 0 <= a < roots@.len() && path_start(r[0]) == enc_symbol_id(#[trigger] roots@[a]);
                    let b = choose|b: int| 0 <= b < roots@.len() && path_start(r[1]) == enc_symbol_id(#[trigger] roots@[b]);
                    crate::order::lemma_lex_irreflexive(path_start(r[0]));
                }
            }
            assert forall|j: int| 0 <= j < r.len() implies first_other_caller(edges@, tkv, path_start(#[trigger] r[j])) by {
                assert(starts_at_root(r[j], roots@));
            let a = choose|a: int| 0 <= a < roots@.len() && path_start(r[j]) == enc_symbol_id(#[trigger] roots@[a]);
                assert(a == 0);
            }
            assert forall|k: Seq<u32>| first_other_caller(edges@, tkv, k) && #[trigger] edge_reaches(edges@, k, tkv) implies r.len() == 1 by {
                assert(roots@.len() == 1);
                let k0 = enc_symbol_id(roots@[0]);
                assert(first_other_caller(edges@, tkv, k0));
                crate::order::lemma_lex_total(k, k0);
                assert(calls_out(edges@, k) && k != tkv);
                assert(calls_out(edges@, k0) && k0 != tkv);
                assert(!lex_lt(k, k0));
                assert(!lex_lt(k0, k));
                assert(edge_reaches(edges@, enc_symbol_id(roots@[0]), tkv));
            }
        }
    }
    paths
}

/// Adds every entry of `b` to `a`, the entries of `b` replacing those of `a` under
/// the same key (`extend`).
pub fn extend_map<V>(a: &mut OrdMap<V>, b: OrdMap<V>)
    requires
        old(a).wf(),
        b.wf(),
    ensures
        final(a).wf(),
        forall|k: Seq<u32>| #[trigger] final(a).contains(k) <==> (old(a).contains(k) || b.contains(k)),
{
    let mut b = b;
    let ghost bk = b.key_view();
    let ghost oa = *a;
    while b.keys.len() > 0
        invariant
            a.wf(),
            b.keys@.len() == b.vals@.len(),
            b.key_view() == bk.take(b.keys@.len() as int),
            b.keys@.len() <= bk.len(),
            forall|k: Seq<u32>| #[trigger] a.contains(k) <==> (oa.contains(k)
                || exists|j: int| b.keys@.len() <= j < bk.len() && bk[j] == k),
        decreases b.keys@.len(),
    {
        let ghost before = *a;
        let ghost n = b.keys@.len();
        let ghost old_keys = b.keys@;
        let k = b.keys.pop().unwrap();
        let v = b.vals.pop().unwrap();
        proof {
            assert(k == old_keys[n - 1]);
            assert(old_keys.map_values(|x: Vec<u32>| x@)[n - 1] == bk.take(n as int)[n - 1]);
            assert(k@ == bk[n - 1]);
            assert(b.keys@ =~= old_keys.drop_last());
            assert(b.key_view() =~= bk.take(n - 1));
        }
        let p = a.insert(k, v);
        proof {
            assert forall|x: Seq<u32>| #[trigger] a.contains(x) <==> (oa.contains(x)
                || exists|j: int| b.keys@.len() <= j < bk.len() && bk[j] == x) by {
                if before.contains(k@) {
                    assert(a.key_view() == before.key_view());
                } else {
                    lemma_insert_contains(before, *a, k@, p as int, x);
                }
                if x == k@ {
                    assert(bk[n - 1] == x);
                }
                if exists|j: int| b.keys@.len() <= j < bk.len() && bk[j] == x {
                    let w = choose|j: int| b.keys@.len() <= j < bk.len() && bk[j] == x;
                    if w > n - 1 {
                        assert(before.contains(x));
                    }
                }
                assert(before.contains(x) <==> (oa.contains(x) || exists|j: int| n <= j < bk.len() && bk[j] == x));
            }
        }
    }
    proof {
        assert forall|x: Seq<u32>| #[trigger] a.contains(x) <==> (oa.contains(x) || bk.contains(x)) by {
            if exists|j: int| 0 <= j < bk.len() && bk[j] == x {
                let w = choose|j: int| 0 <= j < bk.len() && bk[j] == x;
                assert(bk.contains(x));
            }
            if bk.contains(x) {
                let w = choose|j: int| 0 <= j < bk.len() && bk[j] == x;
                assert(0 <= w < bk.len() && bk[w] == x);
            }
        }
    }
}

/// A map of verified edges: ordered by merge key, each edge under its own.
pub open spec fn edge_map_wf(m: OrdMap<CallEdge>) -> bool {
    &&& m.wf()
    &&& forall|i: int| 0 <= i < m.size() ==> #[trigger] m.key_view()[i] == edge_key_of(m.vals@[i])
    &&& forall|i: int| 0 <= i < m.size() ==> (#[trigger] m.vals@[i]).contexts.wf() && m.vals@[i].evidence_by_context.wf()
}

/// Same endpoints, call site, kind, confidence and identifier.
pub open spec fn same_head(a: CallEdge, b: CallEdge) -> bool {
    &&& a.id == b.id
    &&& a.caller == b.caller
    &&& a.callee == b.callee
    &&& a.callsite == b.callsite
    &&& a.kind == b.kind
    &&& a.confidence == b.confidence
}

/// Merges a verified edge: an edge with the same merge key gains its contexts and
/// evidence; otherwise the edge is added.
pub fn merge_edge(m: &mut OrdMap<CallEdge>, edge: CallEdge)
    requires
        edge_map_wf(*old(m)),
    ensures
        edge_map_wf(*final(m)),
        final(m).contains(edge_key_of(edge)),
        forall|k: Seq<u32>| #[trigger] final(m).contains(k) <==> (old(m).contains(k) || k == edge_key_of(edge)),
        forall|i: int| 0 <= i < final(m).size() ==> same_head(#[trigger] final(m).vals@[i], edge)
            || exists|j: int| 0 <= j < old(m).size() && same_head(final(m).vals@[i], #[trigger] old(m).vals@[j]),
{
    let k = edge_key(&edge);
    let ghost om = *m;
    let ghost e0 = edge;
    let mut incoming = edge;
    let mut ctxs: OrdMap<crate::model::CompilationKey> = OrdMap::new();
    let mut evs: OrdMap<(crate::model::CompilationKey, crate::model::VerificationEvidence)> = OrdMap::new();
    std::mem::swap(&mut ctxs, &mut incoming.contexts);
    std::mem::swap(&mut evs, &mut incoming.evidence_by_context);
    let ctxs = crate::order::normalized(ctxs);
    let evs = crate::order::normalized(evs);
    match m.find(k.as_slice()) {
        Ok(i) => {
            let mut cur = m.replace_at(i, incoming);
            let ghost c0 = cur;
            assert(om.vals@[i as int].contexts.wf() && om.vals@[i as int].evidence_by_context.wf());
            extend_map(&mut cur.contexts, ctxs);
            extend_map(&mut cur.evidence_by_context, evs);
            assert(same_head(cur, c0));
            assert(edge_key_of(cur) == edge_key_of(c0));
            let _ = m.replace_at(i, cur);
            proof {
                assert(m.key_view() =~= om.key_view());
                assert forall|x: int| 0 <= x < m.size() implies #[trigger] m.key_view()[x] == edge_key_of(m.vals@[x]) by {
                    if x != i {
                        assert(m.vals@[x] == om.vals@[x]);
                    }
                }
                assert forall|x: int| 0 <= x < m.size() implies (#[trigger] m.vals@[x]).contexts.wf() && m.vals@[x].evidence_by_context.wf() by {
                    if x != i {
                        assert(m.vals@[x] == om.vals@[x]);
                    }
                }
                assert forall|x: int| 0 <= x < m.size() implies same_head(#[trigger] m.vals@[x], e0)
                    || exists|j: int| 0 <= j < om.size() && same_head(m.vals@[x], #[trigger] om.vals@[j]) by {
                    if x != i {
                        assert(m.vals@[x] == om.vals@[x]);
                        assert(same_head(m.vals@[x], om.vals@[x]));
                    } else {
                        assert(same_head(m.vals@[x], om.vals@[i as int]));
                    }
                }
                assert forall|x: Seq<u32>| #[trigger] m.contains(x) <==> (om.contains(x) || x == edge_key_of(e0)) by {
                    assert(om.key_view()[i as int] == edge_key_of(e0));
                }
            }
        },
        Err(_) => {
            incoming.contexts = ctxs;
            incoming.evidence_by_context = evs;
            assert(same_head(incoming, e0));
            assert(edge_key_of(incoming) == edge_key_of(e0));
            let p = m.insert(k, incoming);
            proof {
                assert forall|x: int| 0 <= x < m.size() implies (#[trigger] m.vals@[x]).contexts.wf() && m.vals@[x].evidence_by_context.wf() by {
                    if x < p {
                        assert(m.vals@[x] == om.vals@[x]);
                    } else if x > p {
                        assert(m.vals@[x] == om.vals@[x - 1]);
                    }
                }
                assert forall|x: int| 0 <= x < m.size() implies #[trigger] m.key_view()[x] == edge_key_of(m.vals@[x]) by {
                    if x < p {
                        assert(m.vals@[x] == om.vals@[x] && m.key_view()[x] == om.key_view()[x]);
                    } else if x > p {
                        assert(m.vals@[x] == om.vals@[x - 1] && m.key_view()[x] == om.key_view()[x - 1]);
                    }
                }
                assert forall|x: int| 0 <= x < m.size() implies same_head(#[trigger] m.vals@[x], e0)
                    || exists|j: int| 0 <= j < om.size() && same_head(m.vals@[x], #[trigger] om.vals@[j]) by {
                    if x < p {
                        assert(same_head(m.vals@[x], om.vals@[x]));
                    } else if x > p {
                        assert(same_head(m.vals@[x], om.vals@[x - 1]));
                    }
                }
                assert forall|x: Seq<u32>| #[trigger] m.contains(x) <==> (om.contains(x) || x == edge_key_of(e0)) by {
                    lemma_insert_contains(om, *m, k@, p as int, x);
                }
            }
        },
    }
}

/// One item of a traversal frontier.
#[derive(Debug)]
pub struct FrontierItem {
    /// The symbol to expand
    pub symbol: SymbolId,
    /// Its depth from the starting symbol
    pub depth: usize,
    /// The symbol it was reached from, and the edge
    pub predecessor: Option<(SymbolId, CallEdgeId)>,
}

/// Metrics with every counter at zero and no files.
pub fn empty_metrics() -> (r: QueryMetrics)
    ensures
        r.verified_translation_units == 0,
        r.semantic_candidates_verified == 0,
        r.verified_source_files@.len() == 0,
        r.skipped_source_files@.len() == 0,
{
    QueryMetrics {
        source_files_inspected: 0,
        source_files_parsed_by_treesitter: 0,
        candidate_call_sites: 0,
        available_translation_units: 0,
        candidate_translation_units: 0,
        verified_translation_units: 0,
        clang_tu_parses: 0,
        tu_cache_hits: 0,
        semantic_candidates_verified: 0,
        discovery_time: 0,
        verification_time: 0,
        traversal_time: 0,
        total_query_time: 0,
        peak_resident_memory_bytes: 0,
        verified_source_files: Vec::new(),
        skipped_source_files: Vec::new(),
    }
}

/// The counts a result carries are those of its symbols, edges and paths.
pub open spec fn counts_ok(r: QueryResult) -> bool {
    &&& r.counts.total_symbols == r.symbols.size()
    &&& r.counts.confirmed_edges == count_conf(r.edges@, Confidence::Confirmed)
    &&& r.counts.possible_edges == count_conf(r.edges@, Confidence::Possible)
    &&& r.counts.unresolved_edges == count_conf(r.edges@, Confidence::Unresolved)
    &&& r.counts.paths_count == r.paths@.len()
}

/// The merge keys of the edges.
pub open spec fn edge_keys(edges: Seq<CallEdge>) -> Seq<Seq<u32>> {
    edges.map_values(|e: CallEdge| edge_key_of(e))
}

/// How a traversal completed: no result without edges, truncated only under a
/// depth limit, complete otherwise.
pub open spec fn completion_ok(r: QueryResult, max_depth: Option<usize>) -> bool {
    &&& (r.completion == Completion::NoResult) == (r.edges@.len() == 0)
    &&& r.completion matches Completion::Truncated { max_depth: d } ==> max_depth == Some(d)
    &&& r.completion != Completion::Partial
}

/// An edge admitted by a reverse search: confirmed when only confirmed edges are
/// asked for; its callee, if any, is a symbol of the result; without a callee it
/// is unresolved, and then not part of a trace.
pub open spec fn caller_edge_ok(e: CallEdge, symbols: OrdMap<Symbol>, verified_only: bool, trace: bool) -> bool {
    &&& verified_only ==> e.confidence == Confidence::Confirmed
    &&& e.callee matches Some(c) ==> symbols.contains(enc_symbol_id(c))
    &&& e.callee is None ==> e.confidence == Confidence::Unresolved && !trace
}

/// An edge admitted by a forward search: confirmed when only confirmed edges are
/// asked for.
pub open spec fn callee_edge_ok(e: CallEdge, verified_only: bool) -> bool {
    verified_only ==> e.confidence == Confidence::Confirmed
}

/// Among the merge keys, that of some edge from `u` to `v`.
pub open spec fn keyed_step(keys: Seq<Seq<u32>>, u: Seq<u32>, v: Seq<u32>) -> bool {
    exists|e: CallEdge| #[trigger] keys.contains(edge_key_of(e)) && edge_goes(e, u, v)
}

/// A walk from `s` to `t` whose every step has its merge key among `keys`.
pub open spec fn keyed_walk(keys: Seq<Seq<u32>>, w: Seq<Seq<u32>>, s: Seq<u32>, t: Seq<u32>) -> bool {
    &&& w.len() >= 1
    &&& w[0] == s
    &&& w.last() == t
    &&& forall|i: int| 0 <= i < w.len() - 1 ==> #[trigger] keyed_step(keys, w[i], w[i + 1])
}

/// Some such walk leads from `s` to `t` in at most `n` steps.
pub open spec fn reaches_within(keys: Seq<Seq<u32>>, s: Seq<u32>, t: Seq<u32>, n: int) -> bool {
    exists|w: Seq<Seq<u32>>| #[trigger] keyed_walk(keys, w, s, t) && w.len() <= n + 1
}

/// More keys keep every walk.
proof fn lemma_reach_grow(a: Seq<Seq<u32>>, b: Seq<Seq<u32>>, s: Seq<u32>, t: Seq<u32>, n: int)
    requires
        forall|k: Seq<u32>| a.contains(k) ==> #[trigger] b.contains(k),
        reaches_within(a, s, t, n),
    ensures
        reaches_within(b, s, t, n),
{
    let w = choose|w: Seq<Seq<u32>>| #[trigger] keyed_walk(a, w, s, t) && w.len() <= n + 1;
    assert forall|i: int| 0 <= i < w.len() - 1 implies #[trigger] keyed_step(b, w[i], w[i + 1]) by {
        assert(keyed_step(a, w[i], w[i + 1]));
        let e = choose|e: CallEdge| #[trigger] a.contains(edge_key_of(e)) && edge_goes(e, w[i], w[i + 1]);
        assert(b.contains(edge_key_of(e)));
    }
    assert(keyed_walk(b, w, s, t));
}

/// One step before a walk of at most `n` steps makes a walk of at most `n + 1`.
proof fn lemma_reach_step(keys: Seq<Seq<u32>>, u: Seq<u32>, v: Seq<u32>, t: Seq<u32>, n: int)
    requires
        keyed_step(keys, u, v),
        reaches_within(keys, v, t, n),
    ensures
        reaches_within(keys, u, t, n + 1),
{
    let w = choose|w: Seq<Seq<u32>>| #[trigger] keyed_walk(keys, w, v, t) && w.len() <= n + 1;
    let w2 = seq![u] + w;
    assert forall|i: int| 0 <= i < w2.len() - 1 implies #[trigger] keyed_step(keys, w2[i], w2[i + 1]) by {
        if i > 0 {
            assert(w2[i] == w[i - 1] && w2[i + 1] == w[i]);
            assert(keyed_step(keys, w[i - 1], w[(i - 1) + 1]));
        }
    }
    assert(keyed_walk(keys, w2, u, t));
}

/// Merging an edge into the item being expanded keeps the callers' depth facts
/// and gives the edge's caller a walk one step longer than the item's.
proof fn lemma_callers_merge(om: OrdMap<CallEdge>, nm: OrdMap<CallEdge>, e0: CallEdge, item: SymbolId, d: int,
    tkv: Seq<u32>, max_depth: Option<usize>)
    requires
        edge_map_wf(om),
        edge_map_wf(nm),
        nm.contains(edge_key_of(e0)),
        forall|k: Seq<u32>| #[trigger] nm.contains(k) <==> (om.contains(k) || k == edge_key_of(e0)),
        forall|i: int| 0 <= i < nm.size() ==> same_head(#[trigger] nm.vals@[i], e0)
            || exists|j: int| 0 <= j < om.size() && same_head(nm.vals@[i], #[trigger] om.vals@[j]),
        e0.callee matches Some(c) ==> enc_symbol_id(c) == enc_symbol_id(item),
        reaches_within(om.key_view(), enc_symbol_id(item), tkv, d),
        max_depth matches Some(n) ==> d < n,
        max_depth matches Some(n) ==> forall|i: int| 0 <= i < om.size() && (#[trigger] om.vals@[i]).callee is Some ==>
            reaches_within(om.key_view(), enc_symbol_id(om.vals@[i].caller), tkv, n as int),
    ensures
        forall|k: Seq<u32>| om.key_view().contains(k) ==> #[trigger] nm.key_view().contains(k),
        reaches_within(nm.key_view(), enc_symbol_id(item), tkv, d),
        e0.callee is Some ==> reaches_within(nm.key_view(), enc_symbol_id(e0.caller), tkv, d + 1),
        max_depth matches Some(n) ==> forall|i: int| 0 <= i < nm.size() && (#[trigger] nm.vals@[i]).callee is Some ==>
            reaches_within(nm.key_view(), enc_symbol_id(nm.vals@[i].caller), tkv, n as int),
{
    assert forall|k: Seq<u32>| om.key_view().contains(k) implies #[trigger] nm.key_view().contains(k) by {
        assert(om.contains(k));
        assert(nm.contains(k));
    }
    lemma_reach_grow(om.key_view(), nm.key_view(), enc_symbol_id(item), tkv, d);
    if e0.callee is Some {
        assert(nm.key_view().contains(edge_key_of(e0)));
        assert(keyed_step(nm.key_view(), enc_symbol_id(e0.caller), enc_symbol_id(item)));
        lemma_reach_step(nm.key_view(), enc_symbol_id(e0.caller), enc_symbol_id(item), tkv, d);
    }
    if let Some(n) = max_depth {
        assert forall|i: int| 0 <= i < nm.size() && (#[trigger] nm.vals@[i]).callee is Some implies
            reaches_within(nm.key_view(), enc_symbol_id(nm.vals@[i].caller), tkv, n as int) by {
            let e = nm.vals@[i];
            if same_head(e, e0) {
                assert(reaches_within(nm.key_view(), enc_symbol_id(e0.caller), tkv, d + 1));
                if d + 1 < n {
                    let w = choose|w: Seq<Seq<u32>>| #[trigger] keyed_walk(nm.key_view(), w, enc_symbol_id(e0.caller), tkv) && w.len() <= d + 2;
                    assert(keyed_walk(nm.key_view(), w, enc_symbol_id(e.caller), tkv) && w.len() <= n + 1);
                }
            } else {
                let j = choose|j: int| 0 <= j < om.size() && same_head(e, #[trigger] om.vals@[j]);
                assert(reaches_within(om.key_view(), enc_symbol_id(om.vals@[j].caller), tkv, n as int));
                lemma_reach_grow(om.key_view(), nm.key_view(), enc_symbol_id(e.caller), tkv, n as int);
            }
        }
    }
}

/// Under a depth limit `n`, every caller of a kept edge with a callee reaches the
/// target in at most `n` steps whose merge keys are those of kept edges: the
/// search expands at most `n` caller edges from the target.
pub open spec fn callers_within(edges: Seq<CallEdge>, target: SymbolId, max_depth: Option<usize>) -> bool {
    max_depth matches Some(n) ==> forall|i: int| 0 <= i < edges.len() && (#[trigger] edges[i]).callee is Some ==>
        reaches_within(edge_keys(edges), enc_symbol_id(edges[i].caller), enc_symbol_id(target), n as int)
}

/// The laws of a reverse search result (`callers`, `trace`).
pub open spec fn callers_result_ok(r: QueryResult, target: SymbolId, verified_only: bool, trace: bool, max_depth: Option<usize>) -> bool {
    &&& sym_map_wf(r.symbols)
    &&& r.symbols.contains(enc_symbol_id(target))
    &&& strictly_sorted(edge_keys(r.edges@))
    &&& forall|i: int| 0 <= i < r.edges@.len() ==> caller_edge_ok(#[trigger] r.edges@[i], r.symbols, verified_only, trace)
    &&& completion_ok(r, max_depth)
    &&& counts_ok(r)
    &&& caller_paths_ok(r.paths@, r.edges@, target)
    &&& callers_within(r.edges@, target, max_depth)
    &&& max_depth == Some(0usize) ==> r.edges@.len() == 0
}

/// The laws of a forward search result (`callees`).
pub open spec fn callees_result_ok(r: QueryResult, source: SymbolId, verified_only: bool, max_depth: Option<usize>) -> bool {
    &&& sym_map_wf(r.symbols)
    &&& r.symbols.contains(enc_symbol_id(source))
    &&& strictly_sorted(edge_keys(r.edges@))
    &&& forall|i: int| 0 <= i < r.edges@.len() ==> callee_edge_ok(#[trigger] r.edges@[i], verified_only)
    &&& completion_ok(r, max_depth)
    &&& counts_ok(r)
    &&& r.paths@.len() == 0
    &&& max_depth == Some(0usize) ==> r.edges@.len() == 0
}

/// The laws of an `explain` result: every edge leads to the callee; no result
/// exactly when no edge was kept, complete otherwise.
pub open spec fn explain_result_ok(r: QueryResult, caller: SymbolId, callee: SymbolId) -> bool {
    &&& sym_map_wf(r.symbols)
    &&& r.symbols.contains(enc_symbol_id(caller))
    &&& r.symbols.contains(enc_symbol_id(callee))
    &&& forall|i: int| 0 <= i < r.edges@.len() ==>
        ((#[trigger] r.edges@[i]).callee matches Some(c) && enc_symbol_id(c) == enc_symbol_id(callee))
    &&& forall|i: int| 0 <= i < r.edges@.len() ==> enc_symbol_id((#[trigger] r.edges@[i]).caller) == enc_symbol_id(caller)
    &&& (r.completion == Completion::NoResult) == (r.edges@.len() == 0)
    &&& r.edges@.len() > 0 ==> r.completion == Completion::Complete
    &&& counts_ok(r)
    &&& r.paths@.len() == 0
}

/// Whether a reverse search keeps an edge the back end (or syntax) gave while
/// expanding `expanded`: confirmed, or confirmed edges are not asked for; and it
/// leads to `expanded`, or, outside a trace, it is unresolved and has no callee.
pub open spec fn caller_kept(e: CallEdge, expanded: SymbolId, verified_only: bool, trace: bool) -> bool {
    &&& verified_only ==> e.confidence == Confidence::Confirmed
    &&& match e.callee {
        Some(c) => enc_symbol_id(c) == enc_symbol_id(expanded),
        None => !trace && e.confidence == Confidence::Unresolved,
    }
}

/// Whether a forward or path search keeps an edge: confirmed, or confirmed
/// edges are not asked for.
pub open spec fn callee_kept(e: CallEdge, verified_only: bool) -> bool {
    verified_only ==> e.confidence == Confidence::Confirmed
}

/// Some edge of `given` that a forward or path search keeps has merge key `k`.
pub open spec fn kept_key(given: Seq<CallEdge>, verified_only: bool, k: Seq<u32>) -> bool {
    exists|j: int| 0 <= j < given.len() && callee_kept(given[j], verified_only) && #[trigger] edge_key_of(given[j]) == k
}

/// Some edge of `given` that a forward or path search keeps has the identifier,
/// caller, callee and call site of `e`.
pub open spec fn head_given(e: CallEdge, given: Seq<CallEdge>, verified_only: bool) -> bool {
    exists|j: int| 0 <= j < given.len() && callee_kept(given[j], verified_only) && #[trigger] same_head(e, given[j])
}

/// The edges of a search result are, up to merging, those of `given` that it
/// keeps: one edge per merge key of a kept edge, whose identifier, caller,
/// callee and call site are those of a kept edge.
pub open spec fn merged_from(edges: Seq<CallEdge>, given: Seq<CallEdge>, verified_only: bool) -> bool {
    &&& forall|k: Seq<u32>| edge_keys(edges).contains(k) <==> #[trigger] kept_key(given, verified_only, k)
    &&& forall|i: int| 0 <= i < edges.len() ==> head_given(#[trigger] edges[i], given, verified_only)
}

/// Some edge of `given` (each with the symbol being expanded when it was given)
/// that a reverse search keeps has merge key `k`.
pub open spec fn caller_kept_key(given: Seq<(SymbolId, CallEdge)>, verified_only: bool, trace: bool, k: Seq<u32>) -> bool {
    exists|j: int| 0 <= j < given.len() && caller_kept(given[j].1, given[j].0, verified_only, trace)
        && #[trigger] edge_key_of(given[j].1) == k
}

/// Some edge of `given` that a reverse search keeps has the identifier, caller,
/// callee and call site of `e`.
pub open spec fn caller_head_given(e: CallEdge, given: Seq<(SymbolId, CallEdge)>, verified_only: bool, trace: bool) -> bool {
    exists|j: int| 0 <= j < given.len() && caller_kept(given[j].1, given[j].0, verified_only, trace)
        && #[trigger] same_head(e, given[j].1)
}

/// The edges of a reverse search result are, up to merging, those of `given`
/// that it keeps.
pub open spec fn caller_merged_from(edges: Seq<CallEdge>, given: Seq<(SymbolId, CallEdge)>, verified_only: bool, trace: bool) -> bool {
    &&& forall|k: Seq<u32>| edge_keys(edges).contains(k) <==> #[trigger] caller_kept_key(given, verified_only, trace, k)
    &&& forall|i: int| 0 <= i < edges.len() ==> caller_head_given(#[trigger] edges[i], given, verified_only, trace)
}

/// Whether an `explain` query keeps an edge: it is a call site inside the
/// caller and leads to the callee.
pub open spec fn explain_kept(e: CallEdge, caller: SymbolId, callee: SymbolId) -> bool {
    &&& enc_symbol_id(e.caller) == enc_symbol_id(caller)
    &&& e.callee matches Some(c) && enc_symbol_id(c) == enc_symbol_id(callee)
}

/// The edges of `es` an `explain` query keeps, in order.
pub open spec fn explain_kept_of(es: Seq<CallEdge>, caller: SymbolId, callee: SymbolId) -> Seq<CallEdge>
    decreases es.len(),
{
    if es.len() == 0 {
        Seq::empty()
    } else if explain_kept(es.last(), caller, callee) {
        explain_kept_of(es.drop_last(), caller, callee).push(es.last())
    } else {
        explain_kept_of(es.drop_last(), caller, callee)
    }
}

/// The edges each verification answer of a log gave (none for a resolution).
pub open spec fn answers_of(seg: Seq<BackendCall>) -> Seq<Seq<CallEdge>> {
    seg.map_values(|c: BackendCall| match c {
        BackendCall::Verify { answer, .. } => answer.edges@,
        BackendCall::Resolve { .. } => Seq::empty(),
    })
}

/// The edges an `explain` query keeps of the back end's answers, batch after
/// batch.
pub open spec fn explain_kept_all(answers: Seq<Seq<CallEdge>>, caller: SymbolId, callee: SymbolId) -> Seq<CallEdge>
    decreases answers.len(),
{
    if answers.len() == 0 {
        Seq::empty()
    } else {
        explain_kept_all(answers.drop_last(), caller, callee) + explain_kept_of(answers.last(), caller, callee)
    }
}

/// The reverse search's decision on one edge it was given (see [`caller_kept`]).
pub fn keeps_caller_edge(e: &CallEdge, expanded: &SymbolId, verified_only: bool, trace: bool) -> (r: bool)
    ensures
        r == caller_kept(*e, *expanded, verified_only, trace),
{
    if verified_only && e.confidence != Confidence::Confirmed {
        return false;
    }
    match &e.callee {
        Some(c) => same_symbol_id(c, expanded),
        None => !trace && e.confidence == Confidence::Unresolved,
    }
}

/// The forward and path searches' decision on one edge (see [`callee_kept`]).
pub fn keeps_callee_edge(e: &CallEdge, verified_only: bool) -> (r: bool)
    ensures
        r == callee_kept(*e, verified_only),
{
    !(verified_only && e.confidence != Confidence::Confirmed)
}

/// The `explain` query's decision on one edge (see [`explain_kept`]).
pub fn keeps_explain_edge(e: &CallEdge, caller: &SymbolId, callee: &SymbolId) -> (r: bool)
    ensures
        r == explain_kept(*e, *caller, *callee),
{
    if !same_symbol_id(&e.caller, caller) {
        return false;
    }
    match &e.callee {
        Some(c) => same_symbol_id(c, callee),
        None => false,
    }
}

/// A reversed copy of a vector.
fn reversed<T>(v: Vec<T>) -> (r: Vec<T>)
    ensures
        r@ == v@.reverse(),
{
    let ghost orig = v@;
    let mut v = v;
    let mut r: Vec<T> = Vec::new();
    let ghost n = v@.len();
    while v.len() > 0
        invariant
            r@.len() + v@.len() == n,
            n == orig.len(),
            v@ == orig.subrange(0, v@.len() as int),
            forall|k: int| 0 <= k < r@.len() ==> #[trigger] r@[k] == orig[n - 1 - k],
        decreases v@.len(),
    {
        let ghost before = v@;
        let x = v.pop().unwrap();
        proof {
            assert(x == before[before.len() - 1]);
        }
        r.push(x);
    }
    proof {
        assert(r@ =~= orig.reverse());
    }
    r
}

/// The edges of a well-formed edge map, in key order, have strictly increasing keys.
proof fn lemma_edge_vals_sorted(m: OrdMap<CallEdge>)
    requires
        edge_map_wf(m),
    ensures
        strictly_sorted(edge_keys(m.vals@)),
{
    assert(edge_keys(m.vals@) =~= m.key_view());
}

/// One call the engine made to its semantic back end: what it handed over and
/// what came back.
pub enum BackendCall {
    /// `resolve_symbols` on candidate symbols
    Resolve { candidates: Vec<crate::model::CandidateSymbolId>, answer: ResolutionBatch },
    /// `verify_calls` on a batch
    Verify { batch: VerificationBatch, answer: VerificationResult },
}

/// Log `b` continues log `a`.
pub open spec fn log_extends(a: Seq<BackendCall>, b: Seq<BackendCall>) -> bool {
    &&& a.len() <= b.len()
    &&& forall|i: int| 0 <= i < a.len() ==> #[trigger] b[i] == a[i]
}

/// The calls `seg` hand the first `n` batches of `bs` to the back end, one each,
/// in order: the batch's context and calls, no symbols.
pub open spec fn batches_upto(seg: Seq<BackendCall>, bs: OrdMap<(CompilationKey, Vec<CandidateCallId>)>, n: int) -> bool {
    &&& seg.len() == n
    &&& forall|b: int| 0 <= b < n ==> (#[trigger] seg[b] matches BackendCall::Verify { batch, .. }
        && batch.context == bs.vals@[b].0 && batch.calls@ == bs.vals@[b].1@ && batch.symbols@.len() == 0)
}

/// The calls `seg` hand every batch of `bs` to the back end, one each, in order.
pub open spec fn batches_handed(seg: Seq<BackendCall>, bs: OrdMap<(CompilationKey, Vec<CandidateCallId>)>) -> bool {
    batches_upto(seg, bs, bs.size() as int)
}

/// The edges the verification answers of `seg` gave, call after call.
pub open spec fn answered_edges(seg: Seq<BackendCall>) -> Seq<CallEdge>
    decreases seg.len(),
{
    if seg.len() == 0 {
        Seq::empty()
    } else {
        answered_edges(seg.drop_last()) + match seg.last() {
            BackendCall::Verify { answer, .. } => answer.edges@,
            BackendCall::Resolve { .. } => Seq::empty(),
        }
    }
}

/// Some verification answer of `seg` says its context was analysed normally.
pub open spec fn any_checked(seg: Seq<BackendCall>) -> bool {
    exists|b: int| 0 <= b < seg.len() && (#[trigger] seg[b] matches BackendCall::Verify { answer, .. } && answer.context_checked)
}

/// `r` groups `calls` by compilation context as [`QueryEngine::group_by_context`]
/// does: keyed by context, no batch empty, each call in the batch of each of its
/// contexts and in no other.
pub open spec fn context_grouping(r: OrdMap<(CompilationKey, Vec<CandidateCallId>)>, idx: DiscoveryIndex,
    db: crate::compile_db::CompilationDb, calls: Seq<CandidateCallId>) -> bool {
    &&& r.wf()
    &&& batches_keyed(r)
    &&& forall|b: int| 0 <= b < r.size() ==> (#[trigger] r.vals@[b]).1@.len() > 0
    &&& forall|b: int, x: int| 0 <= b < r.size() && 0 <= x < r.vals@[b].1@.len() ==>
        calls.contains(#[trigger] r.vals@[b].1@[x]) && idx.call_context_keys(db, r.vals@[b].1@[x]).contains(r.vals@[b].0.0@)
    &&& forall|i: int, c: Seq<char>| 0 <= i < calls.len() && #[trigger] idx.call_context_keys(db, calls[i]).contains(c)
        ==> batched(r, c, calls[i])
}

/// Positions `lo..hi` of a log read the same in any log that continues it.
proof fn lemma_log_segment_kept(a: Seq<BackendCall>, b: Seq<BackendCall>, lo: int, hi: int)
    requires
        log_extends(a, b),
        0 <= lo <= hi <= a.len(),
    ensures
        b.subrange(lo, hi) == a.subrange(lo, hi),
{
    assert(b.subrange(lo, hi) =~= a.subrange(lo, hi));
}

/// One expansion of the reverse search, as (the identifier expanded, its
/// symbol, the index before and after its name search, its candidate calls, the
/// first and the end position of the back-end calls made for them in the log,
/// the syntactic edges used).
pub type CallerStep = (SymbolId, Symbol, DiscoveryIndex, DiscoveryIndex, Seq<CandidateCallId>, int, int, Seq<CallEdge>);

/// A syntactic edge for usable call `id` into `target`: from the fallback symbol
/// of the call's enclosing candidate, at the call's range.
pub open spec fn fallback_edge(e: CallEdge, idx: DiscoveryIndex, id: CandidateCallId, target: SymbolId) -> bool {
    exists|s: Symbol| #[trigger] caller_edge_from(e, s, idx, id, target)
}

/// An expansion of the reverse search did its work, as `log` records it: the
/// symbol's name is searched; its candidate calls are those of
/// [`DiscoveryIndex::candidate_callers`]; they are handed to the back end grouped
/// by compilation context, one call per context; and when no context was
/// checked normally, the syntactic edges are one per usable candidate call, in
/// order (none otherwise).
pub open spec fn caller_step_ok(st: CallerStep, log: Seq<BackendCall>, db: crate::compile_db::CompilationDb) -> bool {
    let seg = log.subrange(st.5, st.6);
    let usable = usable_calls(st.3, st.4);
    &&& enc_symbol_id(st.1.id) == enc_symbol_id(st.0)
    &&& name_discovered(st.2, st.3, st.1.name@)
    &&& st.4 == st.3.candidate_callers_spec(st.1)
    &&& 0 <= st.5 <= st.6 <= log.len()
    &&& exists|bs: OrdMap<(CompilationKey, Vec<CandidateCallId>)>| #[trigger] context_grouping(bs, st.3, db, st.4) && batches_handed(seg, bs)
    &&& any_checked(seg) ==> st.7.len() == 0
    &&& !any_checked(seg) ==> st.7.len() == usable.len()
        && forall|k: int| 0 <= k < st.7.len() ==> #[trigger] fallback_edge(st.7[k], st.3, usable[k], st.0)
}

/// The edges the reverse search was given over its expansions, each with the
/// symbol being expanded: the back end's answers, then the syntactic edges.
pub open spec fn caller_given_of(steps: Seq<CallerStep>, log: Seq<BackendCall>) -> Seq<(SymbolId, CallEdge)>
    decreases steps.len(),
{
    if steps.len() == 0 {
        Seq::empty()
    } else {
        let st = steps.last();
        caller_given_of(steps.drop_last(), log)
            + (answered_edges(log.subrange(st.5, st.6)) + st.7).map_values(|e: CallEdge| (st.0, e))
    }
}

/// The expansions follow each other: each starts from the index and the log
/// position the previous one left, from `d0` and `l0` to `d1` and `l1`.
pub open spec fn caller_steps_chain(steps: Seq<CallerStep>, d0: DiscoveryIndex, d1: DiscoveryIndex, l0: int, l1: int) -> bool {
    &&& steps.len() == 0 ==> d1 == d0 && l1 == l0
    &&& steps.len() > 0 ==> steps[0].2 == d0 && steps[0].5 == l0 && steps.last().3 == d1 && steps.last().6 == l1
    &&& forall|k: int| 0 < k < steps.len() ==> #[trigger] steps[k].2 == steps[k - 1].3 && steps[k].5 == steps[k - 1].6
}

/// `caller_given_of` reads only the log positions of its steps.
proof fn lemma_caller_given_kept(steps: Seq<CallerStep>, a: Seq<BackendCall>, b: Seq<BackendCall>)
    requires
        log_extends(a, b),
        forall|k: int| 0 <= k < steps.len() ==> 0 <= #[trigger] steps[k].5 <= steps[k].6 <= a.len(),
    ensures
        caller_given_of(steps, b) == caller_given_of(steps, a),
    decreases steps.len(),
{
    if steps.len() > 0 {
        let st = steps.last();
        assert(steps[steps.len() - 1] == st);
        lemma_log_segment_kept(a, b, st.5, st.6);
        assert forall|k: int| 0 <= k < steps.drop_last().len() implies 0 <= #[trigger] steps.drop_last()[k].5 <= steps.drop_last()[k].6 <= a.len() by {
            assert(steps.drop_last()[k] == steps[k]);
        }
        lemma_caller_given_kept(steps.drop_last(), a, b);
    }
}

/// One expansion of the forward or path search, as (the identifier expanded,
/// its symbol, the index before its name search, the index after it, its calls,
/// the first and the end position of the back-end calls made for them in the
/// log, the syntactic edges used, the index after the syntactic search).
pub type CalleeStep = (SymbolId, Symbol, DiscoveryIndex, DiscoveryIndex, Seq<CandidateCallId>, int, int, Seq<CallEdge>, DiscoveryIndex);

/// An expansion of the forward or path search did its work, as `log` records
/// it: the symbol's name is searched; its calls are those within the
/// candidates named like it; they are handed to the back end grouped by
/// compilation context, one call per context; and when no context was checked
/// normally, the syntactic edges are those the callee search over the calls
/// gives (none otherwise, and the index stays).
pub open spec fn callee_step_ok(st: CalleeStep, log: Seq<BackendCall>, db: crate::compile_db::CompilationDb) -> bool {
    let seg = log.subrange(st.5, st.6);
    &&& enc_symbol_id(st.1.id) == enc_symbol_id(st.0)
    &&& name_discovered(st.2, st.3, crate::model::split_qualified(crate::text::trim_spec(query_text(st.1))).1)
    &&& st.4 == calls_of(st.3, matching_text(st.3, query_text(st.1)))
    &&& 0 <= st.5 <= st.6 <= log.len()
    &&& exists|bs: OrdMap<(CompilationKey, Vec<CandidateCallId>)>| #[trigger] context_grouping(bs, st.3, db, st.4) && batches_handed(seg, bs)
    &&& any_checked(seg) ==> st.7.len() == 0 && st.8 == st.3
    &&& !any_checked(seg) ==> exists|ds: Seq<DiscoveryIndex>, syms: Seq<Symbol>| {
        &&& ds.len() == st.4.len() + 1
        &&& ds[0] == st.3
        &&& ds[st.4.len() as int] == st.8
        &&& forall|j: int| 0 <= j < st.4.len() ==> #[trigger] callee_step(ds[j], ds[j + 1], st.4[j])
        &&& #[trigger] callees_traced(ds, st.4, st.0, syms, st.7)
    }
}

/// The edges the forward or path search was given over its expansions: the
/// back end's answers, then the syntactic edges.
pub open spec fn callee_given_of(steps: Seq<CalleeStep>, log: Seq<BackendCall>) -> Seq<CallEdge>
    decreases steps.len(),
{
    if steps.len() == 0 {
        Seq::empty()
    } else {
        let st = steps.last();
        callee_given_of(steps.drop_last(), log) + answered_edges(log.subrange(st.5, st.6)) + st.7
    }
}

/// The expansions follow each other, from `d0` and `l0` to `d1` and `l1`.
pub open spec fn callee_steps_chain(steps: Seq<CalleeStep>, d0: DiscoveryIndex, d1: DiscoveryIndex, l0: int, l1: int) -> bool {
    &&& steps.len() == 0 ==> d1 == d0 && l1 == l0
    &&& steps.len() > 0 ==> steps[0].2 == d0 && steps[0].5 == l0 && steps.last().8 == d1 && steps.last().6 == l1
    &&& forall|k: int| 0 < k < steps.len() ==> #[trigger] steps[k].2 == steps[k - 1].8 && steps[k].5 == steps[k - 1].6
}

/// The edges expansion `st` was given: the back end's answers, then the
/// syntactic edges.
pub open spec fn step_edges(st: CalleeStep, log: Seq<BackendCall>) -> Seq<CallEdge> {
    answered_edges(log.subrange(st.5, st.6)) + st.7
}

/// Expansion `st` was given an edge the forward search keeps whose callee is `x`.
pub open spec fn gives_callee(st: CalleeStep, log: Seq<BackendCall>, verified_only: bool, x: SymbolId) -> bool {
    exists|i: int| 0 <= i < step_edges(st, log).len() && callee_kept(step_edges(st, log)[i], verified_only)
        && ((#[trigger] step_edges(st, log)[i]).callee matches Some(c) && enc_symbol_id(c) == enc_symbol_id(x))
}

/// The depths of the forward search's expansions: the first is the source, at
/// depth 0; every later one expands the callee of a kept edge given to an
/// earlier expansion (its parent) one level up; with a depth limit, every
/// expansion lies below it.
pub open spec fn callee_depths_ok(steps: Seq<CalleeStep>, depths: Seq<int>, parents: Seq<int>, log: Seq<BackendCall>,
    verified_only: bool, max_depth: Option<usize>) -> bool {
    &&& depths.len() == steps.len()
    &&& parents.len() == steps.len()
    &&& steps.len() > 0 ==> depths[0] == 0
    &&& forall|k: int| #![trigger parents[k]] 0 < k < steps.len() ==> 0 <= parents[k] < k && depths[k] == depths[parents[k]] + 1
        && gives_callee(steps[parents[k]], log, verified_only, steps[k].0)
    &&& max_depth matches Some(d) ==> forall|k: int| 0 <= k < steps.len() ==> #[trigger] depths[k] < d
}

/// Expansion `k` is reached from the first one through `n` kept callee edges:
/// each expansion on the way expands the callee of an edge given to the one
/// before it.
pub open spec fn expansion_reached(steps: Seq<CalleeStep>, log: Seq<BackendCall>, verified_only: bool, k: int, n: nat) -> bool
    decreases n,
{
    if n == 0 {
        k == 0
    } else {
        exists|j: int| 0 <= j < k && #[trigger] gives_callee(steps[j], log, verified_only, steps[k].0)
            && expansion_reached(steps, log, verified_only, j, (n - 1) as nat)
    }
}

/// The forward search stays within its depth limit: every expansion, and so
/// every edge the result keeps, is reached from the source through fewer kept
/// callee edges than the limit.
pub proof fn law_callees_within_depth(steps: Seq<CalleeStep>, depths: Seq<int>, parents: Seq<int>, log: Seq<BackendCall>,
    verified_only: bool, max_depth: Option<usize>, k: int)
    requires
        callee_depths_ok(steps, depths, parents, log, verified_only, max_depth),
        0 <= k < steps.len(),
    ensures
        depths[k] >= 0,
        expansion_reached(steps, log, verified_only, k, depths[k] as nat),
        max_depth matches Some(d) ==> depths[k] < d,
    decreases k,
{
    if k > 0 {
        assert(parents[k] == parents[k]);
        let j = parents[k];
        law_callees_within_depth(steps, depths, parents, log, verified_only, max_depth, j);
        assert(((depths[k] as nat) - 1) as nat == depths[j] as nat);
        assert(gives_callee(steps[j], log, verified_only, steps[k].0));
    }
    if max_depth is Some {
        assert(depths[k] < max_depth->0);
    }
}

/// The forward search reached its depth limit `d`: an expansion one level
/// above it was given a kept edge with a callee, which lies at depth `d`.
pub open spec fn reached_depth_limit(steps: Seq<CalleeStep>, depths: Seq<int>, log: Seq<BackendCall>,
    verified_only: bool, d: usize) -> bool {
    exists|k: int, x: SymbolId| 0 <= k < steps.len() && depths[k] + 1 == d && #[trigger] gives_callee(steps[k], log, verified_only, x)
}

/// One more expansion, of the frontier item at `h0`, keeps the depths of the
/// forward search's expansions in order.
#[verifier::spinoff_prover]
#[verifier::rlimit(100)]
proof fn lemma_depths_push(steps: Seq<CalleeStep>, depths: Seq<int>, parents: Seq<int>, fsrc: Seq<int>,
    fr: Seq<FrontierItem>, h0: int, st: CalleeStep, l_before: Seq<BackendCall>, l_after: Seq<BackendCall>,
    verified_only: bool, max_depth: Option<usize>, ns: Seq<CalleeStep>, nd: Seq<int>, np: Seq<int>)
    requires
        ns == steps.push(st),
        nd == depths.push(fr[h0].depth as int),
        np == parents.push(if h0 > 0 { fsrc[h0] } else { 0 }),
        callee_depths_ok(steps, depths, parents, l_before, verified_only, max_depth),
        fsrc.len() == fr.len(),
        forall|p: int| #![trigger fr[p]] 0 < p < fr.len() ==> 0 <= fsrc[p] < steps.len()
            && fr[p].depth == depths[fsrc[p]] + 1
            && gives_callee(steps[fsrc[p]], l_before, verified_only, fr[p].symbol),
        forall|k: int| 0 <= k < steps.len() ==> 0 <= #[trigger] steps[k].5 <= steps[k].6 <= l_before.len(),
        log_extends(l_before, l_after),
        0 <= h0 < fr.len(),
        st.0 == fr[h0].symbol,
        h0 == 0 ==> steps.len() == 0 && fr[h0].depth == 0,
        max_depth matches Some(d) ==> fr[h0].depth < d,
    ensures
        callee_depths_ok(ns, nd, np, l_after, verified_only, max_depth),
{
    assert forall|k: int| #![trigger np[k]] 0 < k < ns.len() implies 0 <= np[k] < k && nd[k] == nd[np[k]] + 1
        && gives_callee(ns[np[k]], l_after, verified_only, ns[k].0) by {
        if k < steps.len() {
            assert(parents[k] == parents[k]);
            let j = parents[k];
            assert(np[k] == j);
            assert(0 <= steps[j].5 <= steps[j].6 <= l_before.len());
            lemma_gives_callee_kept(steps[j], l_before, l_after, verified_only, steps[k].0);
            assert(ns[j] == steps[j] && ns[k] == steps[k] && nd[j] == depths[j] && nd[k] == depths[k]);
        } else {
            assert(h0 > 0);
            assert(fr[h0] == fr[h0]);
            let j = fsrc[h0];
            assert(np[k] == j);
            assert(0 <= steps[j].5 <= steps[j].6 <= l_before.len());
            lemma_gives_callee_kept(steps[j], l_before, l_after, verified_only, fr[h0].symbol);
            assert(ns[j] == steps[j] && nd[j] == depths[j]);
            assert(ns[k] == st);
        }
    }
    if max_depth is Some {
        assert forall|k: int| 0 <= k < ns.len() implies #[trigger] nd[k] < max_depth->0 by {
            if k < steps.len() {
                assert(depths[k] < max_depth->0);
            }
        }
    }
    if steps.len() > 0 {
        assert(nd[0] == depths[0]);
    } else {
        if h0 > 0 {
            assert(fr[h0] == fr[h0]);
        }
        assert(nd[0] == fr[h0].depth);
    }
}

/// The forward search's depth bookkeeping survives one more expansion: that of
/// the frontier item at `h0`, whose depth lies below the limit.
proof fn lemma_depths_step(steps: Seq<CalleeStep>, depths: Seq<int>, parents: Seq<int>, fsrc: Seq<int>, fpos: Seq<int>,
    fr: Seq<FrontierItem>, h0: int, st: CalleeStep, l_before: Seq<BackendCall>, l_after: Seq<BackendCall>,
    verified_only: bool, max_depth: Option<usize>, truncated: bool)
    requires
        callee_depths_ok(steps, depths, parents, l_before, verified_only, max_depth),
        fsrc.len() == fr.len(),
        forall|p: int| #![trigger fr[p]] 0 < p < fr.len() ==> 0 <= fsrc[p] < steps.len()
            && fr[p].depth == depths[fsrc[p]] + 1
            && gives_callee(steps[fsrc[p]], l_before, verified_only, fr[p].symbol),
        fpos.len() == steps.len(),
        forall|k: int| #![trigger fpos[k]] 0 <= k < steps.len() ==> 0 <= fpos[k] < h0
            && steps[k].0 == fr[fpos[k]].symbol && depths[k] == fr[fpos[k]].depth && (k > 0 ==> fpos[k] > 0),
        truncated ==> (max_depth matches Some(d) && (d == 0 || reached_depth_limit(steps, depths, l_before, verified_only, d))),
        forall|k: int| 0 <= k < steps.len() ==> 0 <= #[trigger] steps[k].5 <= steps[k].6 <= l_before.len(),
        log_extends(l_before, l_after),
        0 <= h0 < fr.len(),
        st.0 == fr[h0].symbol,
        h0 == 0 ==> steps.len() == 0 && fr[h0].depth == 0,
        max_depth matches Some(d) ==> fr[h0].depth < d,
    ensures
        callee_depths_ok(steps.push(st), depths.push(fr[h0].depth as int),
            parents.push(if h0 > 0 { fsrc[h0] } else { 0 }), l_after, verified_only, max_depth),
        forall|p: int| #![trigger fr[p]] 0 < p < fr.len() ==> 0 <= fsrc[p] < steps.push(st).len()
            && fr[p].depth == depths.push(fr[h0].depth as int)[fsrc[p]] + 1
            && gives_callee(steps.push(st)[fsrc[p]], l_after, verified_only, fr[p].symbol),
        forall|k: int| #![trigger fpos.push(h0)[k]] 0 <= k < steps.push(st).len() ==> 0 <= fpos.push(h0)[k] < h0 + 1
            && steps.push(st)[k].0 == fr[fpos.push(h0)[k]].symbol && depths.push(fr[h0].depth as int)[k] == fr[fpos.push(h0)[k]].depth
            && (k > 0 ==> fpos.push(h0)[k] > 0),
        truncated ==> (max_depth matches Some(d) && (d == 0 || reached_depth_limit(steps.push(st), depths.push(fr[h0].depth as int), l_after, verified_only, d))),
{
    let ns = steps.push(st);
    let nd = depths.push(fr[h0].depth as int);
    let nf = fpos.push(h0);
    let np = parents.push(if h0 > 0 { fsrc[h0] } else { 0 });
    lemma_depths_push(steps, depths, parents, fsrc, fr, h0, st, l_before, l_after, verified_only, max_depth, ns, nd, np);
    assert forall|p: int| #![trigger fr[p]] 0 < p < fr.len() implies 0 <= fsrc[p] < ns.len()
        && fr[p].depth == nd[fsrc[p]] + 1
        && gives_callee(ns[fsrc[p]], l_after, verified_only, fr[p].symbol) by {
        let j = fsrc[p];
        assert(0 <= steps[j].5 <= steps[j].6 <= l_before.len());
        lemma_gives_callee_kept(steps[j], l_before, l_after, verified_only, fr[p].symbol);
        assert(ns[j] == steps[j] && nd[j] == depths[j]);
    }
    assert forall|k: int| #![trigger nf[k]] 0 <= k < ns.len() implies 0 <= nf[k] < h0 + 1
        && ns[k].0 == fr[nf[k]].symbol && nd[k] == fr[nf[k]].depth && (k > 0 ==> nf[k] > 0) by {
        if k < steps.len() {
            assert(nf[k] == fpos[k] && ns[k] == steps[k] && nd[k] == depths[k]);
        } else {
            if k > 0 {
                assert(h0 > 0);
            }
        }
    }
    if truncated {
        let d = max_depth->0;
        if d != 0 {
            let (k, x) = choose|k: int, x: SymbolId| 0 <= k < steps.len() && depths[k] + 1 == d
                && #[trigger] gives_callee(steps[k], l_before, verified_only, x);
            assert(0 <= steps[k].5 <= steps[k].6 <= l_before.len());
            lemma_gives_callee_kept(steps[k], l_before, l_after, verified_only, x);
            assert(ns[k] == steps[k] && nd[k] == depths[k]);
            assert(gives_callee(ns[k], l_after, verified_only, x));
            assert(reached_depth_limit(ns, nd, l_after, verified_only, d));
        }
    }
}

/// What an expansion was given reads only its log positions.
proof fn lemma_gives_callee_kept(st: CalleeStep, a: Seq<BackendCall>, b: Seq<BackendCall>, verified_only: bool, x: SymbolId)
    requires
        log_extends(a, b),
        0 <= st.5 <= st.6 <= a.len(),
    ensures
        step_edges(st, b) == step_edges(st, a),
        gives_callee(st, b, verified_only, x) == gives_callee(st, a, verified_only, x),
{
    lemma_log_segment_kept(a, b, st.5, st.6);
}

/// `callee_given_of` reads only the log positions of its steps.
proof fn lemma_callee_given_kept(steps: Seq<CalleeStep>, a: Seq<BackendCall>, b: Seq<BackendCall>)
    requires
        log_extends(a, b),
        forall|k: int| 0 <= k < steps.len() ==> 0 <= #[trigger] steps[k].5 <= steps[k].6 <= a.len(),
    ensures
        callee_given_of(steps, b) == callee_given_of(steps, a),
    decreases steps.len(),
{
    if steps.len() > 0 {
        let st = steps.last();
        assert(steps[steps.len() - 1] == st);
        lemma_log_segment_kept(a, b, st.5, st.6);
        assert forall|k: int| 0 <= k < steps.drop_last().len() implies 0 <= #[trigger] steps.drop_last()[k].5 <= steps.drop_last()[k].6 <= a.len() by {
            assert(steps.drop_last()[k] == steps[k]);
        }
        lemma_callee_given_kept(steps.drop_last(), a, b);
    }
}

/// Some edge of `given` that a reverse search keeps has a callee and its
/// caller has key `k`: the caller is one the search may expand.
pub open spec fn caller_of_kept(given: Seq<(SymbolId, CallEdge)>, verified_only: bool, trace: bool, k: Seq<u32>) -> bool {
    exists|j: int| 0 <= j < given.len() && caller_kept(given[j].1, given[j].0, verified_only, trace)
        && given[j].1.callee is Some && #[trigger] enc_symbol_id(given[j].1.caller) == k
}

/// What `caller_of_kept` says of a sequence it says of any longer one.
proof fn lemma_caller_of_kept_grow(g0: Seq<(SymbolId, CallEdge)>, g1: Seq<(SymbolId, CallEdge)>, verified_only: bool, trace: bool, k: Seq<u32>)
    requires
        g0.len() <= g1.len(),
        forall|j: int| 0 <= j < g0.len() ==> #[trigger] g1[j] == g0[j],
        caller_of_kept(g0, verified_only, trace, k),
    ensures
        caller_of_kept(g1, verified_only, trace, k),
{
    let j = choose|j: int| 0 <= j < g0.len() && caller_kept(g0[j].1, g0[j].0, verified_only, trace)
        && g0[j].1.callee is Some && #[trigger] enc_symbol_id(g0[j].1.caller) == k;
    assert(g1[j] == g0[j]);
}

/// The on-demand query engine over one project.
pub struct QueryEngine<'a, S: SemanticProvider> {
    /// The project
    pub project: &'a ProjectContext,
    /// Candidates discovered so far
    pub discovery: DiscoveryIndex,
    /// The semantic back end
    pub provider: S,
    /// Every call made to the back end so far, with its answer
    pub backend_calls: Ghost<Seq<BackendCall>>,
}

impl<'a, S: SemanticProvider> QueryEngine<'a, S> {
    /// The index and the database are consistent.
    pub open spec fn wf(&self) -> bool {
        self.discovery.wf() && self.project.compilation_db.wf()
    }

    /// An engine over a project, its semantic back end and the project's files.
    pub fn new(project: &'a ProjectContext, provider: S, files: Vec<SourceFile>) -> (r: Self)
        requires
            project.compilation_db.wf(),
        ensures
            r.wf(),
            r.discovery.symbols@.len() == 0,
            r.backend_calls@.len() == 0,
    {
        QueryEngine { project, discovery: DiscoveryIndex::with_catalog(files), provider, backend_calls: Ghost(Seq::empty()) }
    }

    /// The compilation contexts of each candidate call, grouped: per context key,
    /// the calls to verify in it, in order.
    fn group_by_context(&self, calls: &[CandidateCallId]) -> (r: OrdMap<(CompilationKey, Vec<CandidateCallId>)>)
        requires
            self.wf(),
        ensures
            r.wf(),
            batches_keyed(r),
            forall|b: int| 0 <= b < r.size() ==> (#[trigger] r.vals@[b]).1@.len() > 0,
            forall|b: int, x: int| 0 <= b < r.size() && 0 <= x < r.vals@[b].1@.len() ==>
                calls@.contains(#[trigger] r.vals@[b].1@[x])
                && self.discovery.call_context_keys(self.project.compilation_db, r.vals@[b].1@[x]).contains(r.vals@[b].0.0@),
            forall|i: int, c: Seq<char>| 0 <= i < calls@.len()
                && #[trigger] self.discovery.call_context_keys(self.project.compilation_db, calls@[i]).contains(c)
                ==> batched(r, c, calls@[i]),
            context_grouping(r, self.discovery, self.project.compilation_db, calls@),
    {
        let ghost db = self.project.compilation_db;
        let mut batches: OrdMap<(CompilationKey, Vec<CandidateCallId>)> = OrdMap::new();
        let n = calls.len();
        for i in 0..n
            invariant
                n == calls@.len(),
                self.wf(),
                db == self.project.compilation_db,
                batches.wf(),
                batches_keyed(batches),
                forall|b: int| 0 <= b < batches.size() ==> (#[trigger] batches.vals@[b]).1@.len() > 0,
                forall|b: int, x: int| 0 <= b < batches.size() && 0 <= x < batches.vals@[b].1@.len() ==>
                    calls@.contains(#[trigger] batches.vals@[b].1@[x])
                    && self.discovery.call_context_keys(db, batches.vals@[b].1@[x]).contains(batches.vals@[b].0.0@),
                forall|i2: int, c: Seq<char>| 0 <= i2 < i
                    && #[trigger] self.discovery.call_context_keys(db, calls@[i2]).contains(c)
                    ==> batched(batches, c, calls@[i2]),
        {
            let contexts = self.discovery.contexts_for(calls[i], self.project);
            let m = contexts.len();
            for j in 0..m
                invariant
                    batches.wf(),
                    batches_keyed(batches),
                    forall|b: int| 0 <= b < batches.size() ==> (#[trigger] batches.vals@[b]).1@.len() > 0,
                    m == contexts@.len(),
                    n == calls@.len(),
                    i < n,
                    db == self.project.compilation_db,
                    crate::discovery::key_views(contexts@) == self.discovery.call_context_keys(db, calls@[i as int]),
                    forall|b: int, x: int| 0 <= b < batches.size() && 0 <= x < batches.vals@[b].1@.len() ==>
                        calls@.contains(#[trigger] batches.vals@[b].1@[x])
                        && self.discovery.call_context_keys(db, batches.vals@[b].1@[x]).contains(batches.vals@[b].0.0@),
                    forall|i2: int, c: Seq<char>| 0 <= i2 < i
                        && #[trigger] self.discovery.call_context_keys(db, calls@[i2]).contains(c)
                        ==> batched(batches, c, calls@[i2]),
                    forall|j2: int| 0 <= j2 < j ==> batched(batches, #[trigger] contexts@[j2].0@, calls@[i as int]),
            {
                let key = crate::keys::compilation_key_key(&contexts[j]);
                let ghost ob = batches;
                let pos = crate::order::append_to_entry(&mut batches, key, contexts[j].clone(), calls[i]);
                proof {
                    lemma_append_batches(ob, batches, pos as int, contexts@[j as int], calls@[i as int]);
                    assert(crate::discovery::key_views(contexts@)[j as int] == contexts@[j as int].0@);
                    assert(self.discovery.call_context_keys(db, calls@[i as int]).contains(contexts@[j as int].0@));
                    assert(calls@.contains(calls@[i as int]));
                    assert forall|b: int, x: int| 0 <= b < batches.size() && 0 <= x < batches.vals@[b].1@.len() implies
                        calls@.contains(#[trigger] batches.vals@[b].1@[x])
                        && self.discovery.call_context_keys(db, batches.vals@[b].1@[x]).contains(batches.vals@[b].0.0@) by {
                        if !(b == pos && x == batches.vals@[b].1@.len() - 1) {
                            assert(batched_in(ob, batches.vals@[b].1@[x], batches.vals@[b].0));
                            let (b0, x0) = choose|b0: int, x0: int| 0 <= b0 < ob.size() && 0 <= x0 < ob.vals@[b0].1@.len()
                                && ob.vals@[b0].1@[x0] == batches.vals@[b].1@[x] && ob.vals@[b0].0 == batches.vals@[b].0;
                            assert(calls@.contains(ob.vals@[b0].1@[x0]));
                        }
                    }
                }
            }
            proof {
                assert forall|i2: int, c: Seq<char>| 0 <= i2 < i + 1
                    && #[trigger] self.discovery.call_context_keys(db, calls@[i2]).contains(c)
                    implies batched(batches, c, calls@[i2]) by {
                    if i2 == i {
                        let j2 = choose|j2: int| 0 <= j2 < crate::discovery::key_views(contexts@).len()
                            && crate::discovery::key_views(contexts@)[j2] == c;
                        assert(contexts@[j2].0@ == c);
                    }
                }
            }
        }
        batches
    }
}

/// `k` is the key of a context in which one of the calls can be verified.
pub open spec fn calls_context_key(idx: DiscoveryIndex, db: crate::compile_db::CompilationDb, calls: Seq<CandidateCallId>, k: Seq<u32>) -> bool {
    exists|i: int, c: Seq<char>| 0 <= i < calls.len() && #[trigger] idx.call_context_keys(db, calls[i]).contains(c)
        && k == crate::order::enc_str(c)
}

/// Each batch is stored under its context's key.
pub open spec fn batches_keyed(m: OrdMap<(CompilationKey, Vec<CandidateCallId>)>) -> bool {
    forall|b: int| 0 <= b < m.size() ==> #[trigger] m.key_view()[b] == crate::order::enc_str(m.vals@[b].0.0@)
}

/// The batch of context `c` holds `call`.
pub open spec fn batched(m: OrdMap<(CompilationKey, Vec<CandidateCallId>)>, c: Seq<char>, call: CandidateCallId) -> bool {
    exists|b: int| 0 <= b < m.size() && (#[trigger] m.vals@[b]).0.0@ == c && m.vals@[b].1@.contains(call)
}

/// Some batch of context `ctx` holds `call`.
pub open spec fn batched_in(m: OrdMap<(CompilationKey, Vec<CandidateCallId>)>, call: CandidateCallId, ctx: CompilationKey) -> bool {
    exists|b0: int, x0: int| 0 <= b0 < m.size() && 0 <= x0 < m.vals@[b0].1@.len()
        && m.vals@[b0].1@[x0] == call && m.vals@[b0].0 == ctx
}

/// Appending a call to the batch of a context keeps every batched call, adds
/// this one, and changes nothing else.
proof fn lemma_append_batches(ob: OrdMap<(CompilationKey, Vec<CandidateCallId>)>, nb: OrdMap<(CompilationKey, Vec<CandidateCallId>)>,
    pos: int, ctx: CompilationKey, call: CandidateCallId)
    requires
        ob.wf(),
        nb.wf(),
        batches_keyed(ob),
        0 <= pos < nb.size(),
        nb.key_view()[pos] == crate::order::enc_str(ctx.0@),
        ob.contains(crate::order::enc_str(ctx.0@)) ==> {
            &&& nb.key_view() == ob.key_view()
            &&& nb.vals@.len() == ob.vals@.len()
            &&& nb.vals@[pos].0 == ob.vals@[pos].0
            &&& nb.vals@[pos].1@ == ob.vals@[pos].1@.push(call)
            &&& forall|j: int| 0 <= j < nb.vals@.len() && j != pos ==> #[trigger] nb.vals@[j] == ob.vals@[j]
        },
        !ob.contains(crate::order::enc_str(ctx.0@)) ==> {
            &&& pos <= ob.size()
            &&& nb.key_view() == ob.key_view().insert(pos, crate::order::enc_str(ctx.0@))
            &&& nb.vals@.len() == ob.vals@.len() + 1
            &&& nb.vals@[pos].0 == ctx
            &&& nb.vals@[pos].1@ == seq![call]
            &&& forall|j: int| 0 <= j < pos ==> #[trigger] nb.vals@[j] == ob.vals@[j]
            &&& forall|j: int| pos < j < nb.vals@.len() ==> #[trigger] nb.vals@[j] == ob.vals@[j - 1]
        },
    ensures
        batches_keyed(nb),
        nb.vals@[pos].0.0@ == ctx.0@,
        nb.vals@[pos].1@.last() == call,
        nb.vals@[pos].1@.len() >= 1,
        forall|c: Seq<char>, k: CandidateCallId| batched(ob, c, k) ==> #[trigger] batched(nb, c, k),
        batched(nb, ctx.0@, call),
        (forall|b: int| 0 <= b < ob.size() ==> (#[trigger] ob.vals@[b]).1@.len() > 0)
            ==> forall|b: int| 0 <= b < nb.size() ==> (#[trigger] nb.vals@[b]).1@.len() > 0,
        forall|b: int, x: int| 0 <= b < nb.size() && 0 <= x < nb.vals@[b].1@.len() && !(b == pos && x == nb.vals@[b].1@.len() - 1) ==>
            #[trigger] batched_in(ob, nb.vals@[b].1@[x], nb.vals@[b].0),
{
    if ob.contains(crate::order::enc_str(ctx.0@)) {
        let w = choose|w: int| 0 <= w < ob.key_view().len() && ob.key_view()[w] == crate::order::enc_str(ctx.0@);
        crate::order::lemma_unique_key(nb, w, pos);
        assert(crate::order::enc_str(ob.vals@[pos].0.0@) == crate::order::enc_str(ctx.0@));
        assert(crate::order::enc_str(ob.vals@[pos].0.0@) + Seq::<u32>::empty() =~= crate::order::enc_str(ob.vals@[pos].0.0@));
        assert(crate::order::enc_str(ctx.0@) + Seq::<u32>::empty() =~= crate::order::enc_str(ctx.0@));
        crate::extract::lemma_enc_str_prefix_injective(ob.vals@[pos].0.0@, ctx.0@, Seq::empty(), Seq::empty());
        assert forall|b: int| 0 <= b < nb.size() implies #[trigger] nb.key_view()[b] == crate::order::enc_str(nb.vals@[b].0.0@) by {
            if b != pos {
                assert(nb.vals@[b] == ob.vals@[b]);
            }
        }
        assert forall|c: Seq<char>, k: CandidateCallId| batched(ob, c, k) implies #[trigger] batched(nb, c, k) by {
            let b = choose|b: int| 0 <= b < ob.size() && (#[trigger] ob.vals@[b]).0.0@ == c && ob.vals@[b].1@.contains(k);
            let x = choose|x: int| 0 <= x < ob.vals@[b].1@.len() && ob.vals@[b].1@[x] == k;
            if b == pos {
                assert(nb.vals@[b].1@[x] == k);
            } else {
                assert(nb.vals@[b] == ob.vals@[b]);
            }
        }
        assert(nb.vals@[pos].1@[nb.vals@[pos].1@.len() - 1] == call);
        assert forall|b: int, x: int| 0 <= b < nb.size() && 0 <= x < nb.vals@[b].1@.len() && !(b == pos && x == nb.vals@[b].1@.len() - 1) implies
            #[trigger] batched_in(ob, nb.vals@[b].1@[x], nb.vals@[b].0) by {
            if b == pos {
                assert(nb.vals@[b].1@[x] == ob.vals@[b].1@[x]);
                assert(ob.vals@[b].0 == nb.vals@[b].0);
            } else {
                assert(nb.vals@[b] == ob.vals@[b]);
                assert(ob.vals@[b].1@[x] == nb.vals@[b].1@[x]);
            }
        }
    } else {
        assert forall|b: int| 0 <= b < nb.size() implies #[trigger] nb.key_view()[b] == crate::order::enc_str(nb.vals@[b].0.0@) by {
            if b < pos {
                assert(nb.vals@[b] == ob.vals@[b] && nb.key_view()[b] == ob.key_view()[b]);
            } else if b > pos {
                assert(nb.vals@[b] == ob.vals@[b - 1] && nb.key_view()[b] == ob.key_view()[b - 1]);
            }
        }
        assert forall|c: Seq<char>, k: CandidateCallId| batched(ob, c, k) implies #[trigger] batched(nb, c, k) by {
            let b = choose|b: int| 0 <= b < ob.size() && (#[trigger] ob.vals@[b]).0.0@ == c && ob.vals@[b].1@.contains(k);
            if b < pos {
                assert(nb.vals@[b] == ob.vals@[b]);
            } else {
                assert(nb.vals@[b + 1] == ob.vals@[b]);
            }
        }
        assert(nb.vals@[pos].1@[0] == call);
        assert forall|b: int, x: int| 0 <= b < nb.size() && 0 <= x < nb.vals@[b].1@.len() && !(b == pos && x == nb.vals@[b].1@.len() - 1) implies
            #[trigger] batched_in(ob, nb.vals@[b].1@[x], nb.vals@[b].0) by {
            if b < pos {
                assert(nb.vals@[b] == ob.vals@[b]);
                assert(ob.vals@[b].1@[x] == nb.vals@[b].1@[x]);
            } else if b > pos {
                assert(nb.vals@[b] == ob.vals@[b - 1]);
                assert(ob.vals@[b - 1].1@[x] == nb.vals@[b].1@[x]);
            }
        }
    }
    assert(nb.vals@[pos].1@.contains(call));
    if forall|b: int| 0 <= b < ob.size() ==> (#[trigger] ob.vals@[b]).1@.len() > 0 {
        assert forall|b: int| 0 <= b < nb.size() implies (#[trigger] nb.vals@[b]).1@.len() > 0 by {
            if b != pos {
                if ob.contains(crate::order::enc_str(ctx.0@)) {
                    assert(nb.vals@[b] == ob.vals@[b]);
                } else if b < pos {
                    assert(nb.vals@[b] == ob.vals@[b]);
                } else {
                    assert(nb.vals@[b] == ob.vals@[b - 1]);
                }
            }
        }
    }
}

/// The symbol a query resolves to when the back end resolved none and checked
/// no context: one built from the first syntactic candidate.
pub open spec fn fallback_ok(s: Symbol, c: CandidateSymbol) -> bool {
    &&& s.id.language == c.language
    &&& s.id.backend_id matches crate::model::BackendSymbolId::ClangUsr(u) && u@ == "usr:@"@ + c.name@
    &&& s.name@ == c.name@
    &&& crate::discovery::opt_view(s.qualified_name) == (match c.qualifier_hint {
        Some(q) => Some(q@ + c.name@),
        None => None,
    })
    &&& crate::discovery::opt_view(s.namespace) == scope_namespace(c)
    &&& crate::discovery::opt_view(s.class_name) == scope_class(c)
    &&& s.signature is None
    &&& s.declaration == Some(c.declaration.start)
    &&& s.definition is None
}

/// The symbol built from a syntactic candidate when the back end cannot resolve
/// it: identified by `usr:@` and its name, named as the candidate, declared at
/// the candidate's declaration.
pub fn fallback_symbol(c: &CandidateSymbol) -> (r: Symbol)
    ensures
        fallback_ok(r, *c),
{
    let (namespace, class_name) = candidate_scope_parts(c);
    let mut usr = "usr:@".to_string();
    push_str(&mut usr, c.name.as_str());
    let qualified_name = match &c.qualifier_hint {
        Some(q) => {
            let mut t = q.clone();
            push_str(&mut t, c.name.as_str());
            Some(t)
        },
        None => None,
    };
    Symbol {
        id: SymbolId::clang_usr(c.language, usr.as_str()),
        name: c.name.clone(),
        qualified_name,
        namespace,
        class_name,
        signature: None,
        declaration: Some(c.declaration.start.clone()),
        definition: None,
    }
}

/// A discovered method named like a virtual callee but in another scope: one
/// of the runtime targets a virtual call may reach.
pub open spec fn override_candidate(c: CandidateSymbol, callee: Symbol) -> bool {
    &&& c.syntactic_kind == CandidateSymbolKind::Method
    &&& c.name@ == callee.name@
    &&& crate::discovery::opt_view(c.qualifier_hint) != crate::discovery::caller_qualifier(callee)
}

/// The override candidates among `cs`, in order.
pub open spec fn override_candidates_of(cs: Seq<CandidateSymbol>, callee: Symbol) -> Seq<CandidateSymbol>
    decreases cs.len(),
{
    if cs.len() == 0 {
        Seq::empty()
    } else if override_candidate(cs.last(), callee) {
        override_candidates_of(cs.drop_last(), callee).push(cs.last())
    } else {
        override_candidates_of(cs.drop_last(), callee)
    }
}

fn same_opt_text(a: &Option<String>, b: &Option<String>) -> (r: bool)
    ensures
        r == (crate::discovery::opt_view(*a) == crate::discovery::opt_view(*b)),
{
    match (a, b) {
        (Some(x), Some(y)) => str_eq(x.as_str(), y.as_str()),
        (None, None) => true,
        _ => false,
    }
}

/// The fallback symbols of the discovered methods that a virtual call of
/// `callee` may reach besides it: those named like it in another scope.
#[verifier::spinoff_prover]
pub fn override_candidates(idx: &DiscoveryIndex, callee: &Symbol) -> (r: Vec<Symbol>)
    ensures
        r@.len() == override_candidates_of(idx.symbols@, *callee).len(),
        forall|k: int| 0 <= k < r@.len() ==> fallback_ok(#[trigger] r@[k], override_candidates_of(idx.symbols@, *callee)[k]),
{
    let q = crate::discovery::qualifier_of(&callee.qualified_name);
    proof {
        assert(crate::discovery::opt_view(q) == crate::discovery::caller_qualifier(*callee));
    }
    let mut out: Vec<Symbol> = Vec::new();
    let n = idx.symbols.len();
    for i in 0..n
        invariant
            n == idx.symbols@.len(),
            crate::discovery::opt_view(q) == crate::discovery::caller_qualifier(*callee),
            out@.len() == override_candidates_of(idx.symbols@.take(i as int), *callee).len(),
            forall|k: int| 0 <= k < out@.len() ==>
                fallback_ok(#[trigger] out@[k], override_candidates_of(idx.symbols@.take(i as int), *callee)[k]),
    {
        let c = &idx.symbols[i];
        proof {
            assert(idx.symbols@.take(i + 1).drop_last() =~= idx.symbols@.take(i as int));
            assert(idx.symbols@.take(i + 1).last() == idx.symbols@[i as int]);
        }
        let ghost before = out@;
        if c.syntactic_kind == CandidateSymbolKind::Method && str_eq(c.name.as_str(), callee.name.as_str())
            && !same_opt_text(&c.qualifier_hint, &q) {
            out.push(fallback_symbol(c));
            proof {
                assert forall|k: int| 0 <= k < out@.len() implies
                    fallback_ok(#[trigger] out@[k], override_candidates_of(idx.symbols@.take(i + 1), *callee)[k]) by {
                    if k < before.len() {
                        assert(out@[k] == before[k]);
                    }
                }
            }
        }
    }
    proof {
        assert(idx.symbols@.take(n as int) =~= idx.symbols@);
    }
    out
}

/// What deciding a query's symbol gives for the symbols the back end resolved and
/// the number of contexts it checked (see [`choose_endpoint`]).
pub open spec fn endpoint_chosen(r: Result<Symbol, FatalError>, query: SymbolQuery, first: CandidateSymbol,
    symbols: Seq<Symbol>, checked_contexts: usize) -> bool {
    &&& symbols.len() == 1 ==> r == Ok::<Symbol, FatalError>(symbols[0])
    &&& symbols.len() > 1 ==> (r matches Err(FatalError::Query(QueryError::AmbiguousSymbol { query: q, candidates: c }))
        && q@ == query.raw@ && c@.len() == symbols.len()
        && forall|i: int| 0 <= i < c@.len() ==> #[trigger] c@[i]@ == symbols[i].display_name_spec())
    &&& symbols.len() == 0 && checked_contexts > 0 ==> (r matches Err(FatalError::Query(QueryError::SymbolNotFound { query: q }))
        && q@ == query.raw@)
    &&& symbols.len() == 0 && checked_contexts == 0 ==> (r matches Ok(s) && fallback_ok(s, first))
}

/// The back-end call `c` resolved the candidates of `query` in index `idx`,
/// and `r` is what deciding on its answer gives (see [`endpoint_chosen`]).
pub open spec fn resolution_recorded(c: BackendCall, idx: DiscoveryIndex, query: SymbolQuery, r: Result<Symbol, FatalError>) -> bool {
    c matches BackendCall::Resolve { candidates, answer } && candidates@ == idx.matching_spec(query)
        && candidates@.len() > 0
        && endpoint_chosen(r, query, idx.symbols@[candidates@[0].0 - 1], answer.symbols@, answer.checked_contexts)
}

/// Resolving `query` against index `idx` took log `a` to log `b` and gave `r`:
/// not found, with no back-end call, when no candidate matches; else one
/// recorded resolution call decides.
pub open spec fn resolved_by(a: Seq<BackendCall>, b: Seq<BackendCall>, idx: DiscoveryIndex, query: SymbolQuery,
    r: Result<Symbol, FatalError>) -> bool {
    ||| idx.matching_spec(query).len() == 0 && b == a
        && (r matches Err(FatalError::Query(QueryError::SymbolNotFound { query: q })) && q@ == query.raw@)
    ||| idx.matching_spec(query).len() > 0 && b.len() == a.len() + 1 && b.drop_last() == a
        && resolution_recorded(b.last(), idx, query, r)
}

/// An error of resolving `query`: not found, or ambiguous, naming its text.
pub open spec fn error_for(e: FatalError, query: SymbolQuery) -> bool {
    ||| e matches FatalError::Query(QueryError::SymbolNotFound { query: q }) && q@ == query.raw@
    ||| e matches FatalError::Query(QueryError::AmbiguousSymbol { query: q, .. }) && q@ == query.raw@
}

/// The symbol queries of a request, in the order they are resolved.
pub open spec fn request_queries(request: QueryRequest) -> Seq<SymbolQuery> {
    match request {
        QueryRequest::Trace { target, .. } => seq![target],
        QueryRequest::Callers { target, .. } => seq![target],
        QueryRequest::Callees { source, .. } => seq![source],
        QueryRequest::Path { source, target, .. } => seq![source, target],
        QueryRequest::Explain { caller, callee } => seq![caller, callee],
    }
}

/// Decides a query's symbol from what the back end resolved: the one symbol; an
/// ambiguity error naming each when several; when none, not found if some
/// context was checked normally, else the symbol built from the first candidate.
pub fn choose_endpoint(query: &SymbolQuery, first: &CandidateSymbol, symbols: Vec<Symbol>, checked_contexts: usize) -> (r: Result<Symbol, FatalError>)
    ensures
        symbols@.len() == 1 ==> r == Ok::<Symbol, FatalError>(symbols@[0]),
        symbols@.len() > 1 ==> (r matches Err(FatalError::Query(QueryError::AmbiguousSymbol { query: q, candidates: c }))
            && q@ == query.raw@ && c@.len() == symbols@.len()
            && forall|i: int| 0 <= i < c@.len() ==> #[trigger] c@[i]@ == symbols@[i].display_name_spec()),
        symbols@.len() == 0 && checked_contexts > 0 ==> (r matches Err(FatalError::Query(QueryError::SymbolNotFound { query: q }))
            && q@ == query.raw@),
        symbols@.len() == 0 && checked_contexts == 0 ==> (r matches Ok(s) && fallback_ok(s, *first)),
        endpoint_chosen(r, *query, *first, symbols@, checked_contexts),
{
    if symbols.len() == 0 {
        if checked_contexts > 0 {
            return Err(FatalError::Query(QueryError::SymbolNotFound { query: query.raw.clone() }));
        }
        return Ok(fallback_symbol(first));
    }
    if symbols.len() > 1 {
        let mut names: Vec<String> = Vec::new();
        let n = symbols.len();
        for i in 0..n
            invariant
                n == symbols@.len(),
                names@.len() == i,
                forall|j: int| 0 <= j < i ==> #[trigger] names@[j]@ == symbols@[j].display_name_spec(),
        {
            names.push(symbols[i].display_name().to_string());
        }
        return Err(FatalError::Query(QueryError::AmbiguousSymbol { query: query.raw.clone(), candidates: names }));
    }
    let mut symbols = symbols;
    let s = symbols.pop().unwrap();
    Ok(s)
}

/// The issues a back end reported, as diagnostics.
fn push_issues(diags: &mut Vec<Diagnostic>, issues: Vec<AnalysisIssue>)
    ensures
        final(diags)@.len() == old(diags)@.len() + issues@.len(),
{
    let mut rest = reversed(issues);
    let ghost n0 = old(diags)@.len();
    let ghost total = rest@.len();
    while rest.len() > 0
        invariant
            diags@.len() + rest@.len() == n0 + total,
        decreases rest@.len(),
    {
        let issue = rest.pop().unwrap();
        diags.push(Diagnostic::analysis(issue));
    }
}

/// The symbol held under an identifier's key.
fn lookup_symbol<'m>(m: &'m OrdMap<Symbol>, id: &SymbolId) -> (r: Option<&'m Symbol>)
    requires
        sym_map_wf(*m),
    ensures
        r is Some <==> m.contains(enc_symbol_id(*id)),
        r matches Some(s) ==> enc_symbol_id(s.id) == enc_symbol_id(*id),
{
    let k = symbol_id_key(id);
    match m.find(k.as_slice()) {
        Ok(i) => Some(m.value_at(i)),
        Err(_) => None,
    }
}

/// The errors of resolving a query: not found, or ambiguous.
pub open spec fn endpoint_error(e: FatalError) -> bool {
    ||| e matches FatalError::Query(QueryError::SymbolNotFound { .. })
    ||| e matches FatalError::Query(QueryError::AmbiguousSymbol { .. })
}

impl<'a, S: SemanticProvider> QueryEngine<'a, S> {
    /// Resolves a symbol query: discovers its candidates, asks the back end to
    /// resolve them, and decides (see [`choose_endpoint`]). Not found when no
    /// candidate matches the query.
    pub fn resolve_endpoint(&mut self, query: &SymbolQuery, diags: &mut Vec<Diagnostic>) -> (r: Result<Symbol, FatalError>)
        requires
            old(self).wf(),
        ensures
            final(self).wf(),
            old(self).discovery.symbols@.len() <= final(self).discovery.symbols@.len(),
            final(self).discovery.matching_spec(*query).len() == 0 ==>
                (r matches Err(FatalError::Query(QueryError::SymbolNotFound { query: q })) && q@ == query.raw@),
            r is Ok ==> final(self).discovery.matching_spec(*query).len() > 0,
            r matches Err(e) ==> endpoint_error(e) && error_for(e, *query),
            final(self).discovery.matching_spec(*query).len() > 0 ==> exists|syms: Seq<Symbol>, checked: usize|
                #[trigger] endpoint_chosen(r, *query,
                    final(self).discovery.symbols@[final(self).discovery.matching_spec(*query)[0].0 - 1], syms, checked),
            final(self).project == old(self).project,
            name_discovered(old(self).discovery, final(self).discovery, query.terminal_name@),
            resolved_by(old(self).backend_calls@, final(self).backend_calls@, final(self).discovery, *query, r),
    {
        self.discovery.discover_query(self.project, query);
        let found = self.discovery.matching_symbols(query);
        let cand_ids = copy_calls_sym(found);
        if cand_ids.len() == 0 {
            return Err(FatalError::Query(QueryError::SymbolNotFound { query: query.raw.clone() }));
        }
        let ghost hc = cand_ids;
        let resolution = self.provider.resolve_symbols(self.project, &self.discovery, cand_ids.as_slice());
        let ghost ans = resolution;
        let ghost l0 = self.backend_calls@;
        self.backend_calls = Ghost(self.backend_calls@.push(BackendCall::Resolve { candidates: hc, answer: ans }));
        proof {
            assert(self.backend_calls@.drop_last() =~= l0);
        }
        push_issues(diags, resolution.issues);
        match self.discovery.symbol(cand_ids[0]) {
            Some(first) => choose_endpoint(query, first, resolution.symbols, resolution.checked_contexts),
            None => Err(FatalError::Query(QueryError::SymbolNotFound { query: query.raw.clone() })),
        }
    }
}

/// A copy of a slice of symbol identifiers.
fn copy_calls_sym(v: &[crate::model::CandidateSymbolId]) -> (r: Vec<crate::model::CandidateSymbolId>)
    ensures
        r@ == v@,
{
    let n = v.len();
    let mut out: Vec<crate::model::CandidateSymbolId> = Vec::new();
    for i in 0..n
        invariant
            n == v@.len(),
            out@ == v@.take(i as int),
    {
        out.push(v[i]);
        assert(v@.take(i + 1) =~= v@.take(i as int).push(v@[i as int]));
    }
    assert(v@.take(n as int) =~= v@);
    out
}

/// An edge kept from syntax alone: possible, direct, in no context, with no
/// evidence.
pub open spec fn syntactic_edge_ok(e: CallEdge) -> bool {
    &&& e.confidence == Confidence::Possible
    &&& e.kind == CallKind::Direct
    &&& e.contexts.wf() && e.contexts.size() == 0
    &&& e.evidence_by_context.wf() && e.evidence_by_context.size() == 0
}

/// A candidate call whose callee syntax alone can look up: known, with
/// complete syntax and a direct, qualified or member form.
pub open spec fn callee_site_usable(idx: DiscoveryIndex, id: CandidateCallId) -> bool {
    &&& valid_id(id.0, idx.calls@.len())
    &&& idx.calls@[id.0 - 1].syntax_complete
    &&& idx.calls@[id.0 - 1].syntax_hint != CandidateCallKind::Other
}

/// The qualifier and terminal name that a call's written callee (its qualifier
/// hint, then its spelling) parses to.
pub open spec fn callee_terms(site: CandidateCallSite) -> (Option<Seq<char>>, Seq<char>) {
    let written = crate::discovery::opt_view(site.qualifier_hint).unwrap_or(Seq::<char>::empty()) + site.callee_spelling@;
    crate::model::split_qualified(crate::text::trim_spec(written))
}

/// The candidates named like a call's callee: those under the exact name key,
/// else those under the terminal name alone.
pub open spec fn callee_candidates(idx: DiscoveryIndex, site: CandidateCallSite) -> Seq<crate::model::CandidateSymbolId> {
    let q = callee_terms(site).0;
    let t = callee_terms(site).1;
    if idx.symbols_by_name.contains(crate::discovery::name_code(t, q)) {
        crate::order::list_at(idx.symbols_by_name, crate::discovery::name_code(t, q))
    } else {
        crate::order::list_at(idx.symbols_by_name, crate::discovery::name_code(t, None))
    }
}

/// What the search for a terminal name does to the index: it grows, parses
/// only catalog files that mention the name, parses every one of them on the
/// first search, and leaves the index as it was for a blank or searched name.
pub open spec fn name_discovered(a: DiscoveryIndex, b: DiscoveryIndex, name: Seq<char>) -> bool {
    let t = crate::text::trim_spec(name);
    &&& b.wf()
    &&& crate::extract::grows(a, b)
    &&& forall|p: Seq<char>| #[trigger] a.parsed(p) ==> b.parsed(p)
    &&& forall|p: Seq<char>| #[trigger] b.parsed(p) ==> a.parsed(p)
        || crate::discovery::mentioned_path(crate::discovery::catalog_of(a), t, enc_path(p))
    &&& t.len() == 0 || a.searched_names.contains(crate::order::enc_str(t)) ==> b == a
    &&& t.len() > 0 && !a.searched_names.contains(crate::order::enc_str(t)) && a.candidate_files is Some ==> {
        let fs = a.candidate_files->0@;
        forall|j: int| 0 <= j < fs.len() && #[trigger] crate::discovery::file_mentions(fs[j], t) ==> b.parsed(fs[j].path@)
    }
}

/// One step of the callee search over call `id`, from index `a` to index `b`:
/// a usable call's callee name is searched; any other call changes nothing.
pub open spec fn callee_step(a: DiscoveryIndex, b: DiscoveryIndex, id: CandidateCallId) -> bool {
    if callee_site_usable(a, id) {
        name_discovered(a, b, callee_terms(a.calls@[id.0 - 1]).1)
    } else {
        b == a
    }
}

/// Call `id` is usable before its step, and some candidate is named like its
/// callee after it.
pub open spec fn callee_found(a: DiscoveryIndex, b: DiscoveryIndex, id: CandidateCallId) -> bool {
    &&& callee_site_usable(a, id)
    &&& callee_candidates(b, a.calls@[id.0 - 1]).len() > 0
}

/// The edge and symbol syntax gives for a found call out of `source`: into the
/// fallback symbol of the first candidate named like the callee, at the call's
/// range.
pub open spec fn callee_edge_from(e: CallEdge, s: Symbol, a: DiscoveryIndex, b: DiscoveryIndex, id: CandidateCallId,
    source: SymbolId) -> bool {
    let site = a.calls@[id.0 - 1];
    let first = callee_candidates(b, site)[0];
    &&& valid_id(first.0, b.symbols@.len())
    &&& fallback_ok(s, b.symbols@[first.0 - 1])
    &&& e.id == CallEdgeId(id.0)
    &&& e.caller == source
    &&& e.callee == Some(s.id)
    &&& e.callsite == site.expression
    &&& syntactic_edge_ok(e)
}

/// The symbols and edges the callee search over `ids` gives, where `ds[j]` is
/// the index before the step over `ids[j]` and `ds[j + 1]` the one after it:
/// one symbol and one edge per found call, in order.
pub open spec fn callees_traced(ds: Seq<DiscoveryIndex>, ids: Seq<CandidateCallId>, source: SymbolId,
    syms: Seq<Symbol>, edges: Seq<CallEdge>) -> bool
    decreases ids.len(),
{
    if ids.len() == 0 {
        syms.len() == 0 && edges.len() == 0
    } else {
        let n = ids.len() - 1;
        if callee_found(ds[n], ds[n + 1], ids[n]) {
            &&& syms.len() > 0 && edges.len() > 0
            &&& callee_edge_from(edges.last(), syms.last(), ds[n], ds[n + 1], ids[n], source)
            &&& callees_traced(ds, ids.drop_last(), source, syms.drop_last(), edges.drop_last())
        } else {
            callees_traced(ds, ids.drop_last(), source, syms, edges)
        }
    }
}

/// `callees_traced` reads no index past the step over the last call.
proof fn lemma_callees_traced_extend(ds: Seq<DiscoveryIndex>, x: DiscoveryIndex, ids: Seq<CandidateCallId>,
    source: SymbolId, syms: Seq<Symbol>, edges: Seq<CallEdge>)
    requires
        ids.len() < ds.len(),
    ensures
        callees_traced(ds.push(x), ids, source, syms, edges) == callees_traced(ds, ids, source, syms, edges),
    decreases ids.len(),
{
    if ids.len() > 0 {
        let n = ids.len() - 1;
        assert(ds.push(x)[n] == ds[n]);
        assert(ds.push(x)[n + 1] == ds[n + 1]);
        lemma_callees_traced_extend(ds, x, ids.drop_last(), source, syms.drop_last(), edges.drop_last());
        lemma_callees_traced_extend(ds, x, ids.drop_last(), source, syms, edges);
    }
}

/// A candidate call that syntax alone can connect: known, with complete syntax,
/// a direct, qualified or member form, and a known enclosing symbol.
pub open spec fn usable_site(idx: DiscoveryIndex, id: CandidateCallId) -> bool {
    &&& valid_id(id.0, idx.calls@.len())
    &&& idx.calls@[id.0 - 1].syntax_complete
    &&& idx.calls@[id.0 - 1].syntax_hint != CandidateCallKind::Other
    &&& valid_id(idx.calls@[id.0 - 1].caller.0, idx.symbols@.len())
}

/// The usable calls among `ids`, in order.
pub open spec fn usable_calls(idx: DiscoveryIndex, ids: Seq<CandidateCallId>) -> Seq<CandidateCallId>
    decreases ids.len(),
{
    if ids.len() == 0 {
        Seq::empty()
    } else if usable_site(idx, ids.last()) {
        usable_calls(idx, ids.drop_last()).push(ids.last())
    } else {
        usable_calls(idx, ids.drop_last())
    }
}

/// The edge and symbol syntax gives for a usable call into `target`: from the
/// fallback symbol of the call's enclosing candidate, at the call's range.
pub open spec fn caller_edge_from(e: CallEdge, s: Symbol, idx: DiscoveryIndex, id: CandidateCallId, target: SymbolId) -> bool {
    let site = idx.calls@[id.0 - 1];
    &&& fallback_ok(s, idx.symbols@[site.caller.0 - 1])
    &&& e.id == CallEdgeId(id.0)
    &&& e.caller == s.id
    &&& e.callee == Some(target)
    &&& e.callsite == site.expression
    &&& syntactic_edge_ok(e)
}

/// The edge syntax alone gives for a candidate call, from `caller` to `callee`.
fn syntactic_edge(call: &CandidateCallSite, caller: SymbolId, callee: SymbolId) -> (r: CallEdge)
    ensures
        r.id == CallEdgeId(call.id.0),
        r.caller == caller,
        r.callee == Some(callee),
        r.callsite == call.expression,
        syntactic_edge_ok(r),
{
    CallEdge {
        id: CallEdgeId(call.id.0),
        caller,
        callee: Some(callee),
        callsite: call.expression.clone(),
        kind: CallKind::Direct,
        confidence: Confidence::Possible,
        contexts: OrdMap::new(),
        evidence_by_context: OrdMap::new(),
    }
}

impl<'a, S: SemanticProvider> QueryEngine<'a, S> {
    /// Verifies calls context by context: the edges verified, in order, and
    /// whether some context was checked normally. Checked contexts are counted,
    /// the symbols met are recorded and the issues become diagnostics.
    fn verify_grouped(&mut self, calls: &[CandidateCallId], symbols_map: &mut OrdMap<Symbol>,
        verified_tu_keys: &mut OrdMap<CompilationKey>, diags: &mut Vec<Diagnostic>) -> (r: (Vec<CallEdge>, bool))
        requires
            old(self).wf(),
            sym_map_wf(*old(symbols_map)),
            old(verified_tu_keys).wf(),
        ensures
            final(self).wf(),
            sym_map_wf(*final(symbols_map)),
            forall|k: Seq<u32>| #[trigger] old(symbols_map).contains(k) ==> final(symbols_map).contains(k),
            final(verified_tu_keys).wf(),
            final(self).discovery == old(self).discovery,
            (forall|i: int| 0 <= i < calls@.len() ==>
                #[trigger] old(self).discovery.call_context_keys(old(self).project.compilation_db, calls@[i]).len() == 0)
                ==> r.0@.len() == 0 && !r.1 && *final(verified_tu_keys) == *old(verified_tu_keys)
                    && *final(symbols_map) == *old(symbols_map),
            forall|k: Seq<u32>| #[trigger] final(verified_tu_keys).contains(k) ==> old(verified_tu_keys).contains(k)
                || calls_context_key(old(self).discovery, old(self).project.compilation_db, calls@, k),
            r.1 ==> exists|k: Seq<u32>| #[trigger] final(verified_tu_keys).contains(k)
                && calls_context_key(old(self).discovery, old(self).project.compilation_db, calls@, k),
            final(self).project == old(self).project,
            log_extends(old(self).backend_calls@, final(self).backend_calls@),
            exists|bs: OrdMap<(CompilationKey, Vec<CandidateCallId>)>| {
                let seg = final(self).backend_calls@.subrange(old(self).backend_calls@.len() as int, final(self).backend_calls@.len() as int);
                &&& #[trigger] context_grouping(bs, old(self).discovery, old(self).project.compilation_db, calls@)
                &&& batches_handed(seg, bs)
                &&& r.0@ == answered_edges(seg)
                &&& r.1 == any_checked(seg)
            },
    {
        let ghost db = self.project.compilation_db;
        let ghost disc = self.discovery;
        let ghost log0 = self.backend_calls@;
        let mut batches = self.group_by_context(calls);
        let ghost b0 = batches;
        let nb = batches.len();
        proof {
            if forall|i: int| 0 <= i < calls@.len() ==> #[trigger] disc.call_context_keys(db, calls@[i]).len() == 0 {
                if nb > 0 {
                    assert(b0.vals@[0].1@.len() > 0);
                    let c = b0.vals@[0].1@[0];
                    assert(calls@.contains(c));
                    let i = choose|i: int| 0 <= i < calls@.len() && calls@[i] == c;
                    assert(disc.call_context_keys(db, calls@[i]).contains(b0.vals@[0].0.0@));
                    assert(disc.call_context_keys(db, calls@[i]).len() == 0);
                    assert(false);
                }
            }
            assert forall|b: int| 0 <= b < b0.size() implies
                calls_context_key(disc, db, calls@, crate::order::enc_str(#[trigger] b0.vals@[b].0.0@)) by {
                assert(b0.vals@[b].1@.len() > 0);
                let c = b0.vals@[b].1@[0];
                assert(calls@.contains(c));
                let i = choose|i: int| 0 <= i < calls@.len() && calls@[i] == c;
                assert(disc.call_context_keys(db, calls@[i]).contains(b0.vals@[b].0.0@));
            }
        }
        let mut out: Vec<CallEdge> = Vec::new();
        let mut checked = false;
        let mut bi: usize = 0;
        while bi < nb
            invariant
                self.wf(),
                self.discovery == disc,
                self.project.compilation_db == db,
                sym_map_wf(*symbols_map),
                forall|k: Seq<u32>| #[trigger] old(symbols_map).contains(k) ==> symbols_map.contains(k),
                verified_tu_keys.wf(),
                batches.keys@.len() == nb,
                batches.vals@.len() == nb,
                nb == b0.size(),
                bi <= nb,
                forall|j: int| bi <= j < nb ==> #[trigger] batches.vals@[j] == b0.vals@[j],
                forall|b: int| 0 <= b < b0.size() ==> calls_context_key(disc, db, calls@, crate::order::enc_str(#[trigger] b0.vals@[b].0.0@)),
                forall|k: Seq<u32>| #[trigger] verified_tu_keys.contains(k) ==> old(verified_tu_keys).contains(k)
                    || calls_context_key(disc, db, calls@, k),
                checked ==> exists|k: Seq<u32>| #[trigger] verified_tu_keys.contains(k) && calls_context_key(disc, db, calls@, k),
                nb == 0 ==> out@.len() == 0 && !checked && *verified_tu_keys == *old(verified_tu_keys)
                    && *symbols_map == *old(symbols_map),
                self.project == old(self).project,
                log0 == old(self).backend_calls@,
                self.backend_calls@.len() == log0.len() + bi,
                log_extends(log0, self.backend_calls@),
                batches_upto(self.backend_calls@.subrange(log0.len() as int, self.backend_calls@.len() as int), b0, bi as int),
                out@ == answered_edges(self.backend_calls@.subrange(log0.len() as int, self.backend_calls@.len() as int)),
                checked == any_checked(self.backend_calls@.subrange(log0.len() as int, self.backend_calls@.len() as int)),
            decreases nb - bi,
        {
            let (ctx_key, group) = batches.replace_at(bi, (CompilationKey(String::new()), Vec::new()));
            proof {
                assert(ctx_key == b0.vals@[bi as int].0);
                assert(calls_context_key(disc, db, calls@, crate::order::enc_str(b0.vals@[bi as int].0.0@)));
                assert forall|j: int| bi + 1 <= j < nb implies #[trigger] batches.vals@[j] == b0.vals@[j] by {}
            }
            bi = bi + 1;
            let key = crate::keys::compilation_key_key(&ctx_key);
            let tu = ctx_key.clone();
            let batch = VerificationBatch { context: ctx_key, symbols: Vec::new(), calls: group };
            let ghost hb = batch;
            let ghost seg0 = self.backend_calls@.subrange(log0.len() as int, self.backend_calls@.len() as int);
            let ghost l0 = self.backend_calls@;
            let ver = self.provider.verify_calls(self.project, &self.discovery, batch);
            let ghost ans = ver;
            self.backend_calls = Ghost(self.backend_calls@.push(BackendCall::Verify { batch: hb, answer: ans }));
            proof {
                let seg1 = self.backend_calls@.subrange(log0.len() as int, self.backend_calls@.len() as int);
                assert(seg1 =~= seg0.push(BackendCall::Verify { batch: hb, answer: ans }));
                assert(seg1.drop_last() =~= seg0);
                assert(hb.context == b0.vals@[bi - 1].0 && hb.calls@ == b0.vals@[bi - 1].1@);
                assert forall|b: int| 0 <= b < bi implies (#[trigger] seg1[b] matches BackendCall::Verify { batch, .. }
                    && batch.context == b0.vals@[b].0 && batch.calls@ == b0.vals@[b].1@ && batch.symbols@.len() == 0) by {
                    if b < bi - 1 {
                        assert(seg1[b] == seg0[b]);
                    }
                }
                assert(any_checked(seg1) == (any_checked(seg0) || ans.context_checked)) by {
                    if ans.context_checked {
                        assert(seg1[seg1.len() - 1] == BackendCall::Verify { batch: hb, answer: ans });
                    }
                    if any_checked(seg0) {
                        let b = choose|b: int| 0 <= b < seg0.len() && (#[trigger] seg0[b] matches BackendCall::Verify { answer, .. } && answer.context_checked);
                        assert(seg1[b] == seg0[b]);
                    }
                    if any_checked(seg1) {
                        let b = choose|b: int| 0 <= b < seg1.len() && (#[trigger] seg1[b] matches BackendCall::Verify { answer, .. } && answer.context_checked);
                        if b < seg0.len() {
                            assert(seg1[b] == seg0[b]);
                        }
                    }
                }
                assert forall|i: int| 0 <= i < log0.len() implies #[trigger] self.backend_calls@[i] == log0[i] by {
                    assert(self.backend_calls@[i] == l0[i]);
                }
            }
            if ver.context_checked {
                checked = true;
                let ghost ov = *verified_tu_keys;
                let pos = verified_tu_keys.insert(key, tu);
                proof {
                    lemma_insert_effect(ov, *verified_tu_keys, key@, tu, pos as int);
                    assert(verified_tu_keys.contains(key@));
                }
            }
            push_issues(diags, ver.issues);
            record_verified_symbols(symbols_map, ver.symbols);
            let mut es = ver.edges;
            out.append(&mut es);
        }
        proof {
            let seg = self.backend_calls@.subrange(log0.len() as int, self.backend_calls@.len() as int);
            assert(context_grouping(b0, disc, db, calls@));
            assert(batches_handed(seg, b0));
        }
        (out, checked)
    }

    /// The edges syntax alone gives into `target`: one from the fallback symbol
    /// of each usable candidate call's caller; and those symbols.
    fn syntactic_callers(&self, calls: &[CandidateCallId], target: &SymbolId) -> (r: (Vec<Symbol>, Vec<CallEdge>))
        requires
            self.wf(),
        ensures
            forall|i: int| 0 <= i < r.1@.len() ==> (#[trigger] r.1@[i]).callee == Some(*target) && syntactic_edge_ok(r.1@[i]),
            r.0@.len() == usable_calls(self.discovery, calls@).len(),
            r.1@.len() == usable_calls(self.discovery, calls@).len(),
            forall|k: int| 0 <= k < r.1@.len() ==>
                caller_edge_from(#[trigger] r.1@[k], r.0@[k], self.discovery, usable_calls(self.discovery, calls@)[k], *target),
    {
        let mut syms: Vec<Symbol> = Vec::new();
        let mut out: Vec<CallEdge> = Vec::new();
        let n = calls.len();
        for i in 0..n
            invariant
                n == calls@.len(),
                self.wf(),
                forall|j: int| 0 <= j < out@.len() ==> (#[trigger] out@[j]).callee == Some(*target) && syntactic_edge_ok(out@[j]),
                syms@.len() == usable_calls(self.discovery, calls@.take(i as int)).len(),
                out@.len() == usable_calls(self.discovery, calls@.take(i as int)).len(),
                forall|k: int| 0 <= k < out@.len() ==>
                    caller_edge_from(#[trigger] out@[k], syms@[k], self.discovery, usable_calls(self.discovery, calls@.take(i as int))[k], *target),
        {
            let ghost u0 = usable_calls(self.discovery, calls@.take(i as int));
            proof {
                assert(calls@.take(i + 1).drop_last() =~= calls@.take(i as int));
                assert(calls@.take(i + 1).last() == calls@[i as int]);
            }
            let ghost os = syms@;
            let ghost oo = out@;
            match self.discovery.call(calls[i]) {
                Some(site) => {
                    if site.syntax_complete && site.syntax_hint != CandidateCallKind::Other {
                        match self.discovery.symbol(site.caller) {
                            Some(cand) => {
                                let sym = fallback_symbol(cand);
                                let e = syntactic_edge(site, sym.id.clone(), target.clone());
                                syms.push(sym);
                                out.push(e);
                                proof {
                                    let u1 = usable_calls(self.discovery, calls@.take(i + 1));
                                    assert(u1 == u0.push(calls@[i as int]));
                                    assert forall|k: int| 0 <= k < out@.len() implies
                                        caller_edge_from(#[trigger] out@[k], syms@[k], self.discovery, u1[k], *target) by {
                                        if k < oo.len() {
                                            assert(out@[k] == oo[k] && syms@[k] == os[k] && u1[k] == u0[k]);
                                        }
                                    }
                                }
                            },
                            None => {},
                        }
                    }
                },
                None => {},
            }
        }
        proof {
            assert(calls@.take(n as int) =~= calls@);
        }
        (syms, out)
    }

    /// The edges syntax alone gives out of `source`: one to the fallback symbol
    /// of the first candidate named like each usable candidate call's callee;
    /// and those symbols.
    fn syntactic_callees(&mut self, calls: &[CandidateCallId], source: &SymbolId) -> (r: (Vec<Symbol>, Vec<CallEdge>))
        requires
            old(self).wf(),
        ensures
            final(self).project == old(self).project,
            log_extends(old(self).backend_calls@, final(self).backend_calls@),
            final(self).backend_calls == old(self).backend_calls,
            final(self).wf(),
            forall|i: int| 0 <= i < r.1@.len() ==> (#[trigger] r.1@[i]).caller == *source
                && r.1@[i].callee is Some && syntactic_edge_ok(r.1@[i]),
            exists|ds: Seq<DiscoveryIndex>| {
                &&& ds.len() == calls@.len() + 1
                &&& ds[0] == old(self).discovery
                &&& ds[calls@.len() as int] == final(self).discovery
                &&& forall|j: int| 0 <= j < calls@.len() ==> #[trigger] callee_step(ds[j], ds[j + 1], calls@[j])
                &&& callees_traced(ds, calls@, *source, r.0@, r.1@)
            },
    {
        let mut syms: Vec<Symbol> = Vec::new();
        let mut out: Vec<CallEdge> = Vec::new();
        let n = calls.len();
        let mut i: usize = 0;
        let ghost mut ds: Seq<DiscoveryIndex> = seq![self.discovery];
        while i < n
            invariant
                n == calls@.len(),
                i <= n,
                self.wf(),
                self.project == old(self).project,
                self.backend_calls == old(self).backend_calls,
                forall|j: int| 0 <= j < out@.len() ==> (#[trigger] out@[j]).caller == *source
                    && out@[j].callee is Some && syntactic_edge_ok(out@[j]),
                ds.len() == i + 1,
                ds[0] == old(self).discovery,
                ds[i as int] == self.discovery,
                forall|j: int| 0 <= j < i ==> #[trigger] callee_step(ds[j], ds[j + 1], calls@[j]),
                callees_traced(ds, calls@.take(i as int), *source, syms@, out@),
            decreases n - i,
        {
            let c = calls[i];
            let ghost d0 = self.discovery;
            let ghost ds0 = ds;
            let ghost s0 = syms@;
            let ghost o0 = out@;
            match self.discovery.call(c) {
                Some(found) => {
                    let site = found.clone();
                    if site.syntax_complete && site.syntax_hint != CandidateCallKind::Other {
                        let mut written = match &site.qualifier_hint {
                            Some(q) => q.clone(),
                            None => String::new(),
                        };
                        push_str(&mut written, site.callee_spelling.as_str());
                        let q = SymbolQuery::parse(written.as_str());
                        proof {
                            assert(written@ == crate::discovery::opt_view(site.qualifier_hint).unwrap_or(Seq::<char>::empty())
                                + site.callee_spelling@);
                            assert(q.terminal_name@ == callee_terms(site).1);
                            assert(crate::discovery::opt_view(q.qualifier_hint) == callee_terms(site).0);
                        }
                        self.discovery.discover_query(self.project, &q);
                        let cands = self.discovery.matching_symbols(&q);
                        proof {
                            assert(name_discovered(d0, self.discovery, callee_terms(site).1));
                            assert(cands@ == callee_candidates(self.discovery, site));
                        }
                        if cands.len() > 0 {
                            match self.discovery.symbol(cands[0]) {
                                Some(cand) => {
                                    let sym = fallback_symbol(cand);
                                    let e = syntactic_edge(&site, source.clone(), sym.id.clone());
                                    syms.push(sym);
                                    out.push(e);
                                },
                                None => {},
                            }
                        }
                    }
                },
                None => {},
            }
            proof {
                ds = ds0.push(self.discovery);
                assert(calls@.take(i + 1).drop_last() =~= calls@.take(i as int));
                assert(calls@.take(i + 1).last() == calls@[i as int]);
                assert(ds[i as int] == d0);
                assert(callee_step(ds[i as int], ds[i + 1], calls@[i as int]));
                assert forall|j: int| 0 <= j < i + 1 implies #[trigger] callee_step(ds[j], ds[j + 1], calls@[j]) by {
                    if j < i {
                        assert(ds[j] == ds0[j] && ds[j + 1] == ds0[j + 1]);
                    }
                }
                lemma_callees_traced_extend(ds0, self.discovery, calls@.take(i as int), *source, s0, o0);
                if callee_found(d0, self.discovery, c) {
                    assert(syms@.drop_last() =~= s0);
                    assert(out@.drop_last() =~= o0);
                } else {
                    assert(syms@ == s0 && out@ == o0);
                }
            }
            i = i + 1;
        }
        proof {
            assert(calls@.take(n as int) =~= calls@);
        }
        (syms, out)
    }
}

impl<'a, S: SemanticProvider> QueryEngine<'a, S> {
    /// Reverse search from a resolved target (`callers`, `trace`): breadth
    /// first, each symbol expanded at its best depth, up to the depth limit. A
    /// verified edge is kept when it is confirmed or only confirmed edges are not
    /// asked for, and its callee is the expanded symbol (or, outside a trace, it
    /// has no callee and is unresolved); edges with one merge key are merged; the
    /// callers of kept edges with a callee are expanded next. The paths go from
    /// each top-level caller down to the target.
    #[verifier::spinoff_prover]
    #[verifier::rlimit(100)]
    pub fn callers_from(&mut self, target_sym: Symbol, max_depth: Option<usize>, verified_only: bool, trace: bool,
        metrics: &mut QueryMetrics, diags: &mut Vec<Diagnostic>) -> (r: QueryResult)
        requires
            old(self).wf(),
        ensures
            final(self).project == old(self).project,
            log_extends(old(self).backend_calls@, final(self).backend_calls@),
            final(self).wf(),
            callers_result_ok(r, target_sym.id, verified_only, trace, max_depth),
            exists|given: Seq<(SymbolId, CallEdge)>| #[trigger] caller_merged_from(r.edges@, given, verified_only, trace),
            exists|steps: Seq<CallerStep>| {
                &&& #[trigger] caller_steps_chain(steps, old(self).discovery, final(self).discovery,
                    old(self).backend_calls@.len() as int, final(self).backend_calls@.len() as int)
                &&& forall|k: int| 0 <= k < steps.len() ==>
                    #[trigger] caller_step_ok(steps[k], final(self).backend_calls@, old(self).project.compilation_db)
                &&& caller_merged_from(r.edges@, caller_given_of(steps, final(self).backend_calls@), verified_only, trace)
                &&& max_depth != Some(0usize) ==> steps.len() > 0 && enc_symbol_id(steps[0].0) == enc_symbol_id(target_sym.id)
                &&& forall|k: int| 0 < k < steps.len() ==> caller_of_kept(caller_given_of(steps, final(self).backend_calls@),
                    verified_only, trace, enc_symbol_id(#[trigger] steps[k].0))
            },
    {
        let mut symbols_map: OrdMap<Symbol> = OrdMap::new();
        let target_id = target_sym.id.clone();
        record_symbol(&mut symbols_map, target_sym);
        let mut edges: OrdMap<CallEdge> = OrdMap::new();
        let mut frontier: Vec<FrontierItem> = Vec::new();
        frontier.push(FrontierItem { symbol: target_id.clone(), depth: 0, predecessor: None });
        let mut best_depth: OrdMap<usize> = OrdMap::new();
        let _ = best_depth.insert(symbol_id_key(&target_id), 0);
        let mut verified_tu_keys: OrdMap<CompilationKey> = OrdMap::new();
        let mut truncated = false;
        let mut head: usize = 0;
        let ghost tkv = enc_symbol_id(target_id);
        proof {
            assert(keyed_walk(edges.key_view(), seq![tkv], tkv, tkv));
            assert(reaches_within(edges.key_view(), enc_symbol_id(frontier@[0].symbol), tkv, 0));
        }
        let ghost mut given: Seq<(SymbolId, CallEdge)> = Seq::empty();
        let ghost mut steps: Seq<CallerStep> = Seq::empty();
        let ghost db = self.project.compilation_db;
        assert(edges.key_view() =~= Seq::<Seq<u32>>::empty());
        while head < frontier.len()
            invariant
                self.wf(),
                self.project == old(self).project,
                log_extends(old(self).backend_calls@, self.backend_calls@),
                db == old(self).project.compilation_db,
                caller_steps_chain(steps, old(self).discovery, self.discovery,
                    old(self).backend_calls@.len() as int, self.backend_calls@.len() as int),
                forall|k: int| 0 <= k < steps.len() ==> #[trigger] caller_step_ok(steps[k], self.backend_calls@, db),
                given == caller_given_of(steps, self.backend_calls@),
                frontier@.len() > 0,
                frontier@[0].symbol == target_id,
                head > 0 && max_depth != Some(0usize) ==> steps.len() > 0 && enc_symbol_id(steps[0].0) == tkv,
                head == 0 ==> steps.len() == 0,
                forall|p: int| 0 < p < frontier@.len() ==> caller_of_kept(given, verified_only, trace, enc_symbol_id((#[trigger] frontier@[p]).symbol)),
                forall|k: int| 0 < k < steps.len() ==> caller_of_kept(given, verified_only, trace, enc_symbol_id((#[trigger] steps[k]).0)),
                forall|k: Seq<u32>| #[trigger] edges.contains(k) <==> caller_kept_key(given, verified_only, trace, k),
                forall|i: int| 0 <= i < edges.size() ==> caller_head_given(#[trigger] edges.vals@[i], given, verified_only, trace),
                sym_map_wf(symbols_map),
                symbols_map.contains(enc_symbol_id(target_id)),
                edge_map_wf(edges),
                best_depth.wf(),
                verified_tu_keys.wf(),
                head <= frontier@.len(),
                forall|p: int| 0 <= p < frontier@.len() ==> (#[trigger] frontier@[p]).depth <= p,
                truncated ==> max_depth is Some,
                forall|i: int| 0 <= i < edges.size() ==> caller_edge_ok(#[trigger] edges.vals@[i], symbols_map, verified_only, trace),
                tkv == enc_symbol_id(target_id),
                forall|p: int| 0 <= p < frontier@.len() ==>
                    reaches_within(edges.key_view(), enc_symbol_id((#[trigger] frontier@[p]).symbol), tkv, frontier@[p].depth as int),
                max_depth matches Some(n) ==> forall|i: int| 0 <= i < edges.size() && (#[trigger] edges.vals@[i]).callee is Some ==>
                    reaches_within(edges.key_view(), enc_symbol_id(edges.vals@[i].caller), tkv, n as int),
                max_depth == Some(0usize) ==> edges.size() == 0,
            decreases usize::MAX - head,
        {
            let item_symbol = frontier[head].symbol.clone();
            let item_depth = frontier[head].depth;
            let ghost h0 = head;
            proof {
                if h0 == 0 {
                    assert(item_symbol == target_id);
                    assert(item_depth == 0);
                }
            }
            proof {
                assert(reaches_within(edges.key_view(), enc_symbol_id(frontier@[head as int].symbol), tkv, frontier@[head as int].depth as int));
            }
            head = head + 1;
            match max_depth {
                Some(limit) => {
                    if item_depth >= limit {
                        truncated = true;
                        continue;
                    }
                },
                None => {},
            }
            let cur_sym = match lookup_symbol(&symbols_map, &item_symbol) {
                Some(s) => s.clone(),
                None => continue,
            };
            let ghost d_before = self.discovery;
            let ghost l_before = self.backend_calls@;
            self.discovery.discover_spelling(self.project, cur_sym.name.as_str());
            proof {
                assert(name_discovered(d_before, self.discovery, cur_sym.name@));
            }
            let ghost d_after = self.discovery;
            let candidate_calls = self.discovery.candidate_callers(&cur_sym);
            metrics.semantic_candidates_verified = metrics.semantic_candidates_verified.saturating_add(candidate_calls.len());
            let verify_start = crate::clock::instant_now();
            let ghost s_before = symbols_map;
            let (verified, checked) = self.verify_grouped(candidate_calls.as_slice(), &mut symbols_map, &mut verified_tu_keys, diags);
            let ghost l_after = self.backend_calls@;
            let ghost ans = verified@;
            let ghost mut fb: Seq<CallEdge> = Seq::empty();
            let mut item_edges = verified;
            if !checked {
                let (fb_syms, mut fb_edges) = self.syntactic_callers(candidate_calls.as_slice(), &item_symbol);
                proof {
                    fb = fb_edges@;
                    assert forall|k: int| 0 <= k < fb.len() implies
                        #[trigger] fallback_edge(fb[k], d_after, usable_calls(d_after, candidate_calls@)[k], item_symbol) by {
                        assert(caller_edge_from(fb_edges@[k], fb_syms@[k], d_after, usable_calls(d_after, candidate_calls@)[k], item_symbol));
                    }
                }
                record_verified_symbols(&mut symbols_map, fb_syms);
                item_edges.append(&mut fb_edges);
            }
            proof {
                let seg_i = l_after.subrange(l_before.len() as int, l_after.len() as int);
                let st: CallerStep = (item_symbol, cur_sym, d_before, d_after, candidate_calls@,
                    l_before.len() as int, l_after.len() as int, fb);
                assert(seg_i == self.backend_calls@.subrange(l_before.len() as int, self.backend_calls@.len() as int));
                assert(item_edges@ == answered_edges(seg_i) + fb);
                assert(enc_symbol_id(st.1.id) == enc_symbol_id(st.0));
                assert(name_discovered(st.2, st.3, st.1.name@));
                assert(st.4 == st.3.candidate_callers_spec(st.1));
                assert(0 <= st.5 <= st.6 <= l_after.len());
                assert(l_after.subrange(st.5, st.6) == seg_i);
                assert(exists|bs: OrdMap<(CompilationKey, Vec<CandidateCallId>)>| #[trigger] context_grouping(bs, st.3, db, st.4) && batches_handed(seg_i, bs));
                assert(any_checked(seg_i) == checked);
                assert(any_checked(seg_i) ==> st.7.len() == 0);
                assert(!any_checked(seg_i) ==> st.7.len() == usable_calls(st.3, st.4).len());
                assert(caller_step_ok(st, l_after, db));
                assert forall|k: int| 0 <= k < steps.len() implies 0 <= #[trigger] steps[k].5 <= steps[k].6 <= l_before.len() by {
                    assert(caller_step_ok(steps[k], l_before, db));
                }
                lemma_caller_given_kept(steps, l_before, l_after);
                assert forall|k: int| 0 <= k < steps.len() implies #[trigger] caller_step_ok(steps[k], l_after, db) by {
                    assert(caller_step_ok(steps[k], l_before, db));
                    lemma_log_segment_kept(l_before, l_after, steps[k].5, steps[k].6);
                    assert(l_after.subrange(steps[k].5, steps[k].6) == l_before.subrange(steps[k].5, steps[k].6));
                }
                let ns = steps.push(st);
                assert(ns.drop_last() =~= steps);
                assert(caller_given_of(ns, l_after) == given + (answered_edges(seg_i) + fb).map_values(|e: CallEdge| (item_symbol, e)));
                assert forall|k: int| 0 < k < ns.len() implies #[trigger] ns[k].2 == ns[k - 1].3 && ns[k].5 == ns[k - 1].6 by {
                    if k < steps.len() {
                        assert(ns[k] == steps[k] && ns[k - 1] == steps[k - 1]);
                    }
                }
                if steps.len() > 0 {
                    assert(ns[0] == steps[0]);
                    assert(h0 > 0);
                    assert(caller_of_kept(given, verified_only, trace, enc_symbol_id(frontier@[h0 as int].symbol)));
                } else {
                    assert(h0 == 0 || max_depth == Some(0usize));
                }
                assert forall|k: int| 0 < k < ns.len() implies caller_of_kept(given, verified_only, trace, enc_symbol_id((#[trigger] ns[k]).0)) by {
                    if k < steps.len() {
                        assert(ns[k] == steps[k]);
                    }
                }
                steps = ns;
            }
            let ghost gi = given;
            let ghost orig = item_edges@;
            proof {
                assert forall|i: int| 0 <= i < edges.size() implies caller_edge_ok(#[trigger] edges.vals@[i], symbols_map, verified_only, trace) by {
                    let e = edges.vals@[i];
                    assert(caller_edge_ok(e, s_before, verified_only, trace));
                    match e.callee {
                        Some(c) => { assert(s_before.contains(enc_symbol_id(c))); },
                        None => {},
                    }
                }
            }
            let mut pending = reversed(item_edges);
            while pending.len() > 0
                invariant
                    pending@.len() <= orig.len(),
                    forall|j: int| 0 <= j < pending@.len() ==> #[trigger] pending@[j] == orig[orig.len() - 1 - j],
                    given == gi + orig.take(orig.len() - pending@.len()).map_values(|e: CallEdge| (item_symbol, e)),
                    forall|p: int| 0 < p < frontier@.len() ==> caller_of_kept(given, verified_only, trace, enc_symbol_id((#[trigger] frontier@[p]).symbol)),
                    forall|k: int| 0 < k < steps.len() ==> caller_of_kept(given, verified_only, trace, enc_symbol_id((#[trigger] steps[k]).0)),
                    head > 0 && max_depth != Some(0usize) ==> steps.len() > 0 && enc_symbol_id(steps[0].0) == tkv,
                    frontier@.len() > 0,
                    frontier@[0].symbol == target_id,
                    self.wf(),
                    self.project == old(self).project,
                    log_extends(old(self).backend_calls@, self.backend_calls@),
                    sym_map_wf(symbols_map),
                    symbols_map.contains(enc_symbol_id(target_id)),
                    symbols_map.contains(enc_symbol_id(item_symbol)),
                    edge_map_wf(edges),
                    best_depth.wf(),
                    verified_tu_keys.wf(),
                    head <= frontier@.len(),
                    item_depth < head,
                    forall|p: int| 0 <= p < frontier@.len() ==> (#[trigger] frontier@[p]).depth <= p,
                    truncated ==> max_depth is Some,
                    forall|i: int| 0 <= i < edges.size() ==> caller_edge_ok(#[trigger] edges.vals@[i], symbols_map, verified_only, trace),
                    tkv == enc_symbol_id(target_id),
                    forall|p: int| 0 <= p < frontier@.len() ==>
                        reaches_within(edges.key_view(), enc_symbol_id((#[trigger] frontier@[p]).symbol), tkv, frontier@[p].depth as int),
                    max_depth matches Some(n) ==> forall|i: int| 0 <= i < edges.size() && (#[trigger] edges.vals@[i]).callee is Some ==>
                        reaches_within(edges.key_view(), enc_symbol_id(edges.vals@[i].caller), tkv, n as int),
                    reaches_within(edges.key_view(), enc_symbol_id(item_symbol), tkv, item_depth as int),
                    max_depth matches Some(n) ==> item_depth < n,
                    max_depth != Some(0usize),
                    forall|k: Seq<u32>| #[trigger] edges.contains(k) <==> caller_kept_key(given, verified_only, trace, k),
                    forall|i: int| 0 <= i < edges.size() ==> caller_head_given(#[trigger] edges.vals@[i], given, verified_only, trace),
                decreases pending@.len(),
            {
                let edge = pending.pop().unwrap();
                let ghost g0 = given;
                proof {
                    let t = orig.len() - pending@.len() - 1;
                    assert(edge == orig[t]);
                    assert(orig.take(t + 1).map_values(|e: CallEdge| (item_symbol, e))
                        =~= orig.take(t).map_values(|e: CallEdge| (item_symbol, e)).push((item_symbol, edge)));
                    given = g0.push((item_symbol, edge));
                    assert(given[g0.len() as int] == (item_symbol, edge));
                    assert(forall|j: int| 0 <= j < g0.len() ==> #[trigger] given[j] == g0[j]);
                    assert forall|p: int| 0 < p < frontier@.len() implies caller_of_kept(given, verified_only, trace, enc_symbol_id((#[trigger] frontier@[p]).symbol)) by {
                        lemma_caller_of_kept_grow(g0, given, verified_only, trace, enc_symbol_id(frontier@[p].symbol));
                    }
                    assert forall|k: int| 0 < k < steps.len() implies caller_of_kept(given, verified_only, trace, enc_symbol_id((#[trigger] steps[k]).0)) by {
                        lemma_caller_of_kept_grow(g0, given, verified_only, trace, enc_symbol_id(steps[k].0));
                    }
                    assert forall|k: Seq<u32>| #[trigger] caller_kept_key(g0, verified_only, trace, k) implies caller_kept_key(given, verified_only, trace, k) by {
                        let j = choose|j: int| 0 <= j < g0.len() && caller_kept(g0[j].1, g0[j].0, verified_only, trace) && #[trigger] edge_key_of(g0[j].1) == k;
                        assert(given[j] == g0[j]);
                    }
                    assert forall|i: int| 0 <= i < edges.size() implies caller_head_given(#[trigger] edges.vals@[i], given, verified_only, trace) by {
                        assert(caller_head_given(edges.vals@[i], g0, verified_only, trace));
                        let j = choose|j: int| 0 <= j < g0.len() && caller_kept(g0[j].1, g0[j].0, verified_only, trace) && #[trigger] same_head(edges.vals@[i], g0[j].1);
                        assert(given[j] == g0[j]);
                    }
                }
                if !keeps_caller_edge(&edge, &item_symbol, verified_only, trace) {
                    proof {
                        assert forall|k: Seq<u32>| #[trigger] caller_kept_key(given, verified_only, trace, k) implies caller_kept_key(g0, verified_only, trace, k) by {
                            let j = choose|j: int| 0 <= j < given.len() && caller_kept(given[j].1, given[j].0, verified_only, trace) && #[trigger] edge_key_of(given[j].1) == k;
                            assert(j < g0.len());
                            assert(given[j] == g0[j]);
                        }
                    }
                    continue;
                }
                let ghost s0 = symbols_map;
                record_symbols_from_edge(&mut symbols_map, &edge);
                let caller_id = edge.caller.clone();
                let has_target = edge.callee.is_some();
                let ghost e0 = edge;
                let ghost old_edges = edges;
                proof {
                    assert(caller_edge_ok(e0, symbols_map, verified_only, trace));
                    assert forall|i: int| 0 <= i < old_edges.size() implies caller_edge_ok(#[trigger] old_edges.vals@[i], symbols_map, verified_only, trace) by {
                        let e = old_edges.vals@[i];
                        assert(caller_edge_ok(e, s0, verified_only, trace));
                        match e.callee {
                            Some(c) => { assert(s0.contains(enc_symbol_id(c))); },
                            None => {},
                        }
                    }
                }
                merge_edge(&mut edges, edge);
                proof {
                    assert forall|k: Seq<u32>| #[trigger] edges.contains(k) implies caller_kept_key(given, verified_only, trace, k) by {
                        if k == edge_key_of(e0) {
                            assert(edge_key_of(given[g0.len() as int].1) == k);
                        } else {
                            assert(old_edges.contains(k));
                        }
                    }
                    assert forall|k: Seq<u32>| #[trigger] caller_kept_key(given, verified_only, trace, k) implies edges.contains(k) by {
                        let j = choose|j: int| 0 <= j < given.len() && caller_kept(given[j].1, given[j].0, verified_only, trace) && #[trigger] edge_key_of(given[j].1) == k;
                        if j < g0.len() {
                            assert(given[j] == g0[j]);
                            assert(caller_kept_key(g0, verified_only, trace, k));
                        }
                    }
                    assert forall|i: int| 0 <= i < edges.size() implies caller_head_given(#[trigger] edges.vals@[i], given, verified_only, trace) by {
                        let e = edges.vals@[i];
                        if same_head(e, e0) {
                            assert(same_head(e, given[g0.len() as int].1));
                        } else {
                            let j0 = choose|j: int| 0 <= j < old_edges.size() && same_head(e, #[trigger] old_edges.vals@[j]);
                            assert(caller_head_given(old_edges.vals@[j0], given, verified_only, trace));
                            let j = choose|j: int| 0 <= j < given.len() && caller_kept(given[j].1, given[j].0, verified_only, trace)
                                && #[trigger] same_head(old_edges.vals@[j0], given[j].1);
                            assert(same_head(e, given[j].1));
                        }
                    }
                    assert forall|i: int| 0 <= i < edges.size() implies caller_edge_ok(#[trigger] edges.vals@[i], symbols_map, verified_only, trace) by {
                        let e = edges.vals@[i];
                        if !same_head(e, e0) {
                            let j = choose|j: int| 0 <= j < old_edges.size() && same_head(e, #[trigger] old_edges.vals@[j]);
                            assert(caller_edge_ok(old_edges.vals@[j], symbols_map, verified_only, trace));
                        }
                    }
                    lemma_callers_merge(old_edges, edges, e0, item_symbol, item_depth as int, tkv, max_depth);
                    assert forall|p: int| 0 <= p < frontier@.len() implies
                        reaches_within(edges.key_view(), enc_symbol_id((#[trigger] frontier@[p]).symbol), tkv, frontier@[p].depth as int) by {
                        lemma_reach_grow(old_edges.key_view(), edges.key_view(), enc_symbol_id(frontier@[p].symbol), tkv, frontier@[p].depth as int);
                    }
                }
                if has_target {
                    let next_depth = item_depth + 1;
                    let ck = symbol_id_key(&caller_id);
                    let should = match best_depth.find(ck.as_slice()) {
                        Ok(i) => next_depth < *best_depth.value_at(i),
                        Err(_) => true,
                    };
                    if should {
                        let _ = best_depth.insert(ck, next_depth);
                        let ghost of = frontier@;
                        frontier.push(FrontierItem {
                            symbol: caller_id,
                            depth: next_depth,
                            predecessor: Some((item_symbol.clone(), CallEdgeId(0))),
                        });
                        proof {
                            assert forall|p: int| 0 <= p < frontier@.len() implies
                                reaches_within(edges.key_view(), enc_symbol_id((#[trigger] frontier@[p]).symbol), tkv, frontier@[p].depth as int) by {
                                if p < of.len() {
                                    assert(frontier@[p] == of[p]);
                                }
                            }
                            assert forall|p: int| 0 < p < frontier@.len() implies
                                caller_of_kept(given, verified_only, trace, enc_symbol_id((#[trigger] frontier@[p]).symbol)) by {
                                if p < of.len() {
                                    assert(frontier@[p] == of[p]);
                                } else {
                                    assert(given[g0.len() as int].1 == e0);
                                    assert(caller_kept(e0, item_symbol, verified_only, trace));
                                    assert(enc_symbol_id(given[g0.len() as int].1.caller) == enc_symbol_id(frontier@[p].symbol));
                                }
                            }
                        }
                    }
                }
            }
            let spent = crate::clock::nanos_since(&verify_start);
            metrics.verification_time = metrics.verification_time.saturating_add(spent);
        }
        metrics.verified_translation_units = verified_tu_keys.len();
        proof { lemma_edge_vals_sorted(edges); }
        let ghost em = edges;
        let edges_vec = edges.vals;
        let paths = build_caller_paths(&target_id, edges_vec.as_slice());
        let counts = calculate_counts(&symbols_map, edges_vec.as_slice(), paths.as_slice());
        let completion = if edges_vec.len() == 0 {
            Completion::NoResult
        } else if truncated {
            Completion::Truncated { max_depth: match max_depth { Some(d) => d, None => 0 } }
        } else {
            Completion::Complete
        };
        let r = QueryResult {
            completion,
            symbols: symbols_map,
            edges: edges_vec,
            paths,
            counts,
            diagnostics: Vec::new(),
            metrics: empty_metrics(),
        };
        proof {
            assert forall|i: int| 0 <= i < r.edges@.len() implies caller_edge_ok(#[trigger] r.edges@[i], r.symbols, verified_only, trace) by {
                assert(r.edges@[i] == em.vals@[i]);
            }
            assert(edge_keys(em.vals@) =~= em.key_view());
            assert forall|k: Seq<u32>| edge_keys(r.edges@).contains(k) <==> #[trigger] caller_kept_key(given, verified_only, trace, k) by {
                assert(em.contains(k) <==> caller_kept_key(given, verified_only, trace, k));
            }
            assert forall|i: int| 0 <= i < r.edges@.len() implies caller_head_given(#[trigger] r.edges@[i], given, verified_only, trace) by {
                assert(r.edges@[i] == em.vals@[i]);
            }
            assert(caller_merged_from(r.edges@, given, verified_only, trace));
            assert(edge_keys(r.edges@) =~= em.key_view()) by {
                assert forall|i: int| 0 <= i < em.size() implies #[trigger] edge_keys(r.edges@)[i] == em.key_view()[i] by {
                    assert(em.key_view()[i] == edge_key_of(em.vals@[i]));
                }
            }
            if let Some(n) = max_depth {
                assert forall|i: int| 0 <= i < r.edges@.len() && (#[trigger] r.edges@[i]).callee is Some implies
                    reaches_within(edge_keys(r.edges@), enc_symbol_id(r.edges@[i].caller), enc_symbol_id(target_id), n as int) by {
                    assert(r.edges@[i] == em.vals@[i]);
                }
            }
        }
        r
    }
}

/// Whether edge `e` leads to `v` (by identifier key) and has identifier `id`.
pub open spec fn edge_into(e: CallEdge, v: Seq<u32>, id: CallEdgeId) -> bool {
    (e.callee matches Some(c) && enc_symbol_id(c) == v) && e.id == id
}

/// Some verified edge whose merge key is held leads to `v` and has identifier `id`.
pub open spec fn witnessed(m: OrdMap<CallEdge>, v: Seq<u32>, id: CallEdgeId) -> bool {
    exists|e: CallEdge| #[trigger] m.contains(edge_key_of(e)) && edge_into(e, v, id)
}

/// Reaching the symbol with key `ck` from depth `from_depth` is an improvement:
/// it was not reached, or only at a greater depth.
pub open spec fn offer_improves(st: TraversalState, ck: Seq<u32>, from_depth: usize) -> bool {
    !st.best_depth.contains(ck) || from_depth + 1 < value_of(st.best_depth, ck)
}

/// The state of a path search.
#[derive(Debug)]
pub struct TraversalState {
    /// Symbols to expand, in order; `head` of them expanded
    pub frontier: Vec<FrontierItem>,
    /// Best depth reached per symbol key
    pub best_depth: OrdMap<usize>,
    /// Per symbol key, the symbol it was best reached from, and the edge
    pub predecessors: OrdMap<(SymbolId, CallEdgeId)>,
    /// Verified edges by merge key
    pub edges: OrdMap<CallEdge>,
}

impl TraversalState {
    /// The predecessor of `k` was reached at a smaller best depth and a verified
    /// edge leads from it to `k`.
    pub open spec fn pred_ok(&self, k: Seq<u32>) -> bool {
        let (u, id) = value_of(self.predecessors, k);
        &&& self.best_depth.contains(k)
        &&& self.best_depth.contains(enc_symbol_id(u))
        &&& value_of(self.best_depth, enc_symbol_id(u)) < value_of(self.best_depth, k)
        &&& witnessed(self.edges, k, id)
    }

    /// The search from the symbol with key `sk` is consistent: every reached
    /// symbol but the start has a predecessor, predecessors go back to smaller
    /// depths along verified edges, and frontier depths bound the best depths.
    pub open spec fn path_ok(&self, sk: Seq<u32>) -> bool {
        &&& self.best_depth.wf()
        &&& self.predecessors.wf()
        &&& edge_map_wf(self.edges)
        &&& self.best_depth.contains(sk)
        &&& !self.predecessors.contains(sk)
        &&& forall|p: int| 0 <= p < self.frontier@.len() ==> {
            let it = #[trigger] self.frontier@[p];
            &&& self.best_depth.contains(enc_symbol_id(it.symbol))
            &&& value_of(self.best_depth, enc_symbol_id(it.symbol)) <= it.depth
            &&& it.depth <= p
        }
        &&& forall|k: Seq<u32>| #[trigger] self.best_depth.contains(k) && k != sk ==> self.predecessors.contains(k)
        &&& forall|k: Seq<u32>| #[trigger] self.predecessors.contains(k) ==> self.pred_ok(k)
    }

    /// Records a verified edge under its merge key, replacing an edge held there.
    fn record_edge(&mut self, edge: CallEdge, Ghost(sk): Ghost<Seq<u32>>)
        requires
            old(self).path_ok(sk),
        ensures
            final(self).path_ok(sk),
            final(self).frontier@ == old(self).frontier@,
            final(self).best_depth == old(self).best_depth,
            final(self).edges.contains(edge_key_of(edge)),
            forall|k: Seq<u32>| #[trigger] old(self).edges.contains(k) ==> final(self).edges.contains(k),
            forall|i: int| 0 <= i < final(self).edges.size() ==> same_head(#[trigger] final(self).edges.vals@[i], edge)
                || exists|j: int| 0 <= j < old(self).edges.size() && same_head(final(self).edges.vals@[i], #[trigger] old(self).edges.vals@[j]),
    {
        let ghost e0 = edge;
        let ghost om = self.edges;
        let k = edge_key(&edge);
        let mut incoming = edge;
        let mut ctxs: OrdMap<CompilationKey> = OrdMap::new();
        let mut evs: OrdMap<(CompilationKey, crate::model::VerificationEvidence)> = OrdMap::new();
        std::mem::swap(&mut ctxs, &mut incoming.contexts);
        std::mem::swap(&mut evs, &mut incoming.evidence_by_context);
        incoming.contexts = crate::order::normalized(ctxs);
        incoming.evidence_by_context = crate::order::normalized(evs);
        assert(edge_key_of(incoming) == edge_key_of(e0));
        let ghost inc = incoming;
        let pos = self.edges.insert(k, incoming);
        proof {
            let m = self.edges;
            lemma_insert_effect(om, m, k@, inc, pos as int);
            assert forall|x: int| 0 <= x < m.size() implies #[trigger] m.key_view()[x] == edge_key_of(m.vals@[x]) by {
                if om.contains(k@) {
                    if x != pos {
                        assert(m.vals@[x] == om.vals@[x]);
                    }
                } else if x < pos {
                    assert(m.vals@[x] == om.vals@[x] && m.key_view()[x] == om.key_view()[x]);
                } else if x > pos {
                    assert(m.vals@[x] == om.vals@[x - 1] && m.key_view()[x] == om.key_view()[x - 1]);
                }
            }
            assert forall|x: int| 0 <= x < m.size() implies (#[trigger] m.vals@[x]).contexts.wf() && m.vals@[x].evidence_by_context.wf() by {
                if om.contains(k@) {
                    if x != pos {
                        assert(m.vals@[x] == om.vals@[x]);
                    }
                } else if x < pos {
                    assert(m.vals@[x] == om.vals@[x]);
                } else if x > pos {
                    assert(m.vals@[x] == om.vals@[x - 1]);
                }
            }
            assert forall|x: int| 0 <= x < m.size() implies same_head(#[trigger] m.vals@[x], e0)
                || exists|j: int| 0 <= j < om.size() && same_head(m.vals@[x], #[trigger] om.vals@[j]) by {
                if om.contains(k@) {
                    if x != pos {
                        assert(same_head(m.vals@[x], om.vals@[x]));
                    }
                } else if x < pos {
                    assert(same_head(m.vals@[x], om.vals@[x]));
                } else if x > pos {
                    assert(same_head(m.vals@[x], om.vals@[x - 1]));
                }
            }
            assert forall|kk: Seq<u32>| #[trigger] self.predecessors.contains(kk) implies self.pred_ok(kk) by {
                assert(old(self).pred_ok(kk));
                let (u, id) = value_of(self.predecessors, kk);
                let e = choose|e: CallEdge| #[trigger] om.contains(edge_key_of(e)) && edge_into(e, kk, id);
                assert(m.contains(edge_key_of(e)));
            }
        }
    }

    /// Offers `callee`, reached from `from` at `from_depth` through edge `id`: it is
    /// queued when reached first or at a smaller depth than before.
    fn offer(&mut self, callee: SymbolId, from: &SymbolId, from_depth: usize, id: CallEdgeId, Ghost(sk): Ghost<Seq<u32>>)
        requires
            old(self).path_ok(sk),
            old(self).best_depth.contains(enc_symbol_id(*from)),
            value_of(old(self).best_depth, enc_symbol_id(*from)) <= from_depth,
            from_depth < old(self).frontier@.len(),
            witnessed(old(self).edges, enc_symbol_id(callee), id),
        ensures
            final(self).path_ok(sk),
            old(self).frontier@.len() <= final(self).frontier@.len(),
            forall|p: int| 0 <= p < old(self).frontier@.len() ==> #[trigger] final(self).frontier@[p] == old(self).frontier@[p],
            final(self).edges == old(self).edges,
            forall|k: Seq<u32>| #[trigger] old(self).best_depth.contains(k) ==> final(self).best_depth.contains(k),
            forall|p: int| old(self).frontier@.len() <= p < final(self).frontier@.len() ==> #[trigger] final(self).frontier@[p].depth == from_depth + 1,
            !offer_improves(*old(self), enc_symbol_id(callee), from_depth) ==> *final(self) == *old(self),
            offer_improves(*old(self), enc_symbol_id(callee), from_depth) ==> {
                &&& final(self).frontier@ == old(self).frontier@.push(
                    (FrontierItem { symbol: callee, depth: (from_depth + 1) as usize, predecessor: Some((*from, id)) }))
                &&& final(self).best_depth.contains(enc_symbol_id(callee))
                &&& value_of(final(self).best_depth, enc_symbol_id(callee)) == from_depth + 1
                &&& final(self).predecessors.contains(enc_symbol_id(callee))
                &&& value_of(final(self).predecessors, enc_symbol_id(callee)) == (*from, id)
                &&& forall|k: Seq<u32>| old(self).best_depth.contains(k) && k != enc_symbol_id(callee)
                    ==> #[trigger] value_of(final(self).best_depth, k) == value_of(old(self).best_depth, k)
                &&& forall|k: Seq<u32>| old(self).predecessors.contains(k) && k != enc_symbol_id(callee)
                    ==> #[trigger] value_of(final(self).predecessors, k) == value_of(old(self).predecessors, k)
            },
    {
        let flen = self.frontier.len();
        assert(from_depth < flen);
        let next_depth = from_depth + 1;
        let ck = symbol_id_key(&callee);
        let should = match self.best_depth.find(ck.as_slice()) {
            Ok(i) => {
                proof { crate::order::lemma_pos_of(self.best_depth, i as int); }
                next_depth < *self.best_depth.value_at(i)
            },
            Err(_) => true,
        };
        if !should {
            return;
        }
        let ghost ob = self.best_depth;
        let ghost op = self.predecessors;
        let ghost fk = enc_symbol_id(*from);
        proof {
            if ck@ == sk {
                assert(value_of(ob, sk) <= 0) by {
                    assert(old(self).frontier@[0].depth <= 0);
                }
            }
            if ck@ == fk {
                assert(false);
            }
        }
        let bp = self.best_depth.insert(ck.clone(), next_depth);
        let pp = self.predecessors.insert(ck, (from.clone(), id));
        proof {
            lemma_insert_effect(ob, self.best_depth, ck@, next_depth, bp as int);
            lemma_insert_effect(op, self.predecessors, ck@, (*from, id), pp as int);
        }
        let ghost of = self.frontier@;
        self.frontier.push(FrontierItem { symbol: callee, depth: next_depth, predecessor: Some((from.clone(), id)) });
        proof {
            assert forall|p: int| 0 <= p < self.frontier@.len() implies {
                let it = #[trigger] self.frontier@[p];
                &&& self.best_depth.contains(enc_symbol_id(it.symbol))
                &&& value_of(self.best_depth, enc_symbol_id(it.symbol)) <= it.depth
                &&& it.depth <= p
            } by {
                if p < of.len() {
                    let it = of[p];
                    assert(self.frontier@[p] == it);
                    assert(ob.contains(enc_symbol_id(it.symbol)));
                }
            }
            assert forall|k: Seq<u32>| #[trigger] self.predecessors.contains(k) implies self.pred_ok(k) by {
                if k != ck@ {
                    assert(old(self).pred_ok(k));
                    let (u, id2) = value_of(op, k);
                    assert(value_of(self.predecessors, k) == value_of(op, k));
                    if enc_symbol_id(u) != ck@ {
                        assert(value_of(self.best_depth, enc_symbol_id(u)) == value_of(ob, enc_symbol_id(u)));
                    }
                }
            }
            assert forall|k: Seq<u32>| #[trigger] self.best_depth.contains(k) && k != sk implies self.predecessors.contains(k) by {
                if k != ck@ {
                    assert(ob.contains(k));
                }
            }
        }
    }
}

/// A path from `source` to `target` whose every step enters its next node through
/// a verified edge with the step's identifier, the edge's merge key being that of
/// one of `edges`.
pub open spec fn path_connects(p: CallPath, edges: Seq<CallEdge>, source: SymbolId, target: SymbolId) -> bool {
    &&& p.nodes@.len() == p.edges@.len() + 1
    &&& enc_symbol_id(p.nodes@[0]) == enc_symbol_id(source)
    &&& enc_symbol_id(p.nodes@.last()) == enc_symbol_id(target)
    &&& forall|i: int| #![trigger p.edges@[i]] 0 <= i < p.edges@.len() ==> hop_ok(edges, enc_symbol_id(p.nodes@[i + 1]), p.edges@[i])
}

/// Some edge whose merge key is that of one of `edges` leads to `v` and has
/// identifier `id`.
pub open spec fn hop_ok(edges: Seq<CallEdge>, v: Seq<u32>, id: CallEdgeId) -> bool {
    exists|e: CallEdge| #[trigger] edge_keys(edges).contains(edge_key_of(e)) && edge_into(e, v, id)
}

/// The laws of a path search result.
pub open spec fn path_result_ok(r: QueryResult, source: SymbolId, target: SymbolId, verified_only: bool, max_depth: Option<usize>) -> bool {
    &&& sym_map_wf(r.symbols)
    &&& r.symbols.contains(enc_symbol_id(source))
    &&& r.symbols.contains(enc_symbol_id(target))
    &&& strictly_sorted(edge_keys(r.edges@))
    &&& forall|i: int| 0 <= i < r.edges@.len() ==> (verified_only ==> (#[trigger] r.edges@[i]).confidence == Confidence::Confirmed)
    &&& counts_ok(r)
    &&& r.completion != Completion::Partial
    &&& (r.completion == Completion::Complete) == (r.paths@.len() == 1)
    &&& r.paths@.len() <= 1
    &&& r.completion matches Completion::Truncated { max_depth: d } ==> max_depth == Some(d)
    &&& forall|i: int| 0 <= i < r.paths@.len() ==> path_connects(#[trigger] r.paths@[i], r.edges@, source, target)
    &&& max_depth matches Some(d) ==> forall|i: int| 0 <= i < r.paths@.len() ==> (#[trigger] r.paths@[i]).edges@.len() <= d
}

/// The path a search found: back from the target through the predecessors to
/// the start, then reversed.
fn reconstruct_path(state: &TraversalState, source_id: &SymbolId, target_id: &SymbolId, Ghost(sk): Ghost<Seq<u32>>) -> (r: CallPath)
    requires
        state.path_ok(sk),
        sk == enc_symbol_id(*source_id),
        state.best_depth.contains(enc_symbol_id(*target_id)),
    ensures
        path_connects(r, state.edges.vals@, *source_id, *target_id),
        r.edges@.len() <= value_of(state.best_depth, enc_symbol_id(*target_id)),
{
    let ghost em = state.edges;
    let mut nodes: Vec<SymbolId> = Vec::new();
    nodes.push(target_id.clone());
    let mut pedges: Vec<CallEdgeId> = Vec::new();
    let mut cur = target_id.clone();
    loop
        invariant
            state.path_ok(sk),
            sk == enc_symbol_id(*source_id),
            state.best_depth.contains(enc_symbol_id(cur)),
            nodes@.len() == pedges@.len() + 1,
            nodes@[0] == *target_id,
            nodes@.last() == cur,
            forall|t: int| #![trigger pedges@[t]] 0 <= t < pedges@.len() ==> witnessed(state.edges, enc_symbol_id(nodes@[t]), pedges@[t]),
            pedges@.len() + value_of(state.best_depth, enc_symbol_id(cur)) <= value_of(state.best_depth, enc_symbol_id(*target_id)),
        ensures
            enc_symbol_id(cur) == sk,
            nodes@.len() == pedges@.len() + 1,
            nodes@[0] == *target_id,
            nodes@.last() == cur,
            forall|t: int| #![trigger pedges@[t]] 0 <= t < pedges@.len() ==> witnessed(state.edges, enc_symbol_id(nodes@[t]), pedges@[t]),
            pedges@.len() <= value_of(state.best_depth, enc_symbol_id(*target_id)),
        decreases value_of(state.best_depth, enc_symbol_id(cur)),
    {
        let ck = symbol_id_key(&cur);
        match state.predecessors.find(ck.as_slice()) {
            Ok(pi) => {
                proof {
                    crate::order::lemma_pos_of(state.predecessors, pi as int);
                    assert(state.pred_ok(ck@));
                }
                let prev = state.predecessors.value_at(pi).0.clone();
                let e = state.predecessors.value_at(pi).1;
                let ghost before = nodes@;
                nodes.push(prev.clone());
                pedges.push(e);
                proof {
                    assert forall|t: int| #![trigger pedges@[t]] 0 <= t < pedges@.len() implies witnessed(state.edges, enc_symbol_id(nodes@[t]), pedges@[t]) by {
                        if t == pedges@.len() - 1 {
                            assert(nodes@[t] == before.last());
                        }
                    }
                }
                cur = prev;
                if same_symbol_id(&cur, source_id) {
                    break;
                }
            },
            Err(_) => {
                break;
            },
        }
    }
    let k = nodes.len();
    let mut rn: Vec<SymbolId> = Vec::new();
    let mut re: Vec<CallEdgeId> = Vec::new();
    let mut i: usize = 0;
    while i < k
        invariant
            k == nodes@.len(),
            nodes@.len() == pedges@.len() + 1,
            i <= k,
            rn@.len() == i,
            re@.len() == if i == 0 { 0 } else { i - 1 },
            forall|t: int| 0 <= t < i ==> #[trigger] rn@[t] == nodes@[k - 1 - t],
            forall|t: int| 0 <= t < re@.len() ==> #[trigger] re@[t] == pedges@[pedges@.len() - 1 - t],
        decreases k - i,
    {
        rn.push(nodes[k - 1 - i].clone());
        if i > 0 {
            re.push(pedges[k - 1 - i]);
        }
        i = i + 1;
    }
    let p = CallPath { nodes: rn, edges: re };
    proof {
        assert(p.nodes@[0] == nodes@[k - 1]);
        assert(nodes@[k - 1] == cur);
        assert(enc_symbol_id(p.nodes@[0]) == enc_symbol_id(*source_id));
        assert(p.nodes@.last() == nodes@[0]);
        assert(p.nodes@.len() == p.edges@.len() + 1);
        assert forall|t: int| #![trigger p.edges@[t]] 0 <= t < p.edges@.len() implies
            hop_ok(em.vals@, enc_symbol_id(p.nodes@[t + 1]), p.edges@[t]) by {
            let u = pedges@.len() - 1 - t;
            assert(p.edges@[t] == pedges@[u]);
            assert(p.nodes@[t + 1] == nodes@[u]);
            assert(witnessed(em, enc_symbol_id(nodes@[u]), pedges@[u]));
            let e = choose|e: CallEdge| #[trigger] em.contains(edge_key_of(e)) && edge_into(e, enc_symbol_id(nodes@[u]), pedges@[u]);
            assert(edge_keys(em.vals@) =~= em.key_view());
            assert(edge_keys(em.vals@).contains(edge_key_of(e)));
            assert(edge_into(e, enc_symbol_id(p.nodes@[t + 1]), p.edges@[t]));
        }
        assert(em == state.edges);
        assert(p.nodes@.len() == p.edges@.len() + 1);
        assert(enc_symbol_id(p.nodes@[0]) == enc_symbol_id(*source_id));
        assert(enc_symbol_id(p.nodes@.last()) == enc_symbol_id(*target_id));
        assert(path_connects(p, em.vals@, *source_id, *target_id));
    }
    p
}

/// The candidates a query text selects: those under its exact name key, else
/// those under its bare terminal name.
pub open spec fn matching_text(idx: DiscoveryIndex, text: Seq<char>) -> Seq<crate::model::CandidateSymbolId> {
    let (q, t) = crate::model::split_qualified(crate::text::trim_spec(text));
    if idx.symbols_by_name.contains(crate::discovery::name_code(t, q)) {
        crate::order::list_at(idx.symbols_by_name, crate::discovery::name_code(t, q))
    } else {
        crate::order::list_at(idx.symbols_by_name, crate::discovery::name_code(t, None))
    }
}

/// The text a symbol is searched by: its qualified name, else its name.
pub open spec fn query_text(sym: Symbol) -> Seq<char> {
    match sym.qualified_name {
        Some(qn) => qn@,
        None => sym.name@,
    }
}

/// The calls within each of the candidates, one candidate after the other.
pub open spec fn calls_of(idx: DiscoveryIndex, cands: Seq<crate::model::CandidateSymbolId>) -> Seq<CandidateCallId>
    decreases cands.len(),
{
    if cands.len() == 0 {
        Seq::empty()
    } else {
        calls_of(idx, cands.drop_last()) + idx.callees_of(cands.last())
    }
}

/// Those of `ids` whose callee is spelled `name`, in order.
pub open spec fn spelled(idx: DiscoveryIndex, ids: Seq<CandidateCallId>, name: Seq<char>) -> Seq<CandidateCallId>
    decreases ids.len(),
{
    if ids.len() == 0 {
        Seq::empty()
    } else {
        let rest = spelled(idx, ids.drop_last(), name);
        let id = ids.last();
        if valid_id(id.0, idx.calls@.len()) && idx.calls@[id.0 - 1].callee_spelling@ == name {
            rest.push(id)
        } else {
            rest
        }
    }
}

/// The calls within each of the candidates spelled `name`, one candidate after
/// the other.
pub open spec fn spelled_calls_of(idx: DiscoveryIndex, cands: Seq<crate::model::CandidateSymbolId>, name: Seq<char>) -> Seq<CandidateCallId>
    decreases cands.len(),
{
    if cands.len() == 0 {
        Seq::empty()
    } else {
        spelled_calls_of(idx, cands.drop_last(), name) + spelled(idx, idx.callees_of(cands.last()), name)
    }
}

impl<'a, S: SemanticProvider> QueryEngine<'a, S> {
    /// The candidate calls within every candidate of a symbol's query.
    fn calls_within(&mut self, sym: &Symbol) -> (r: Vec<CandidateCallId>)
        requires
            old(self).wf(),
        ensures
            final(self).project == old(self).project,
            log_extends(old(self).backend_calls@, final(self).backend_calls@),
            final(self).wf(),
            r@ == calls_of(final(self).discovery, matching_text(final(self).discovery, query_text(*sym))),
            final(self).backend_calls == old(self).backend_calls,
            name_discovered(old(self).discovery, final(self).discovery,
                crate::model::split_qualified(crate::text::trim_spec(query_text(*sym))).1),
    {
        let ghost text = query_text(*sym);
        let q = match &sym.qualified_name {
            Some(qn) => SymbolQuery::parse(qn.as_str()),
            None => SymbolQuery::parse(sym.name.as_str()),
        };
        self.discovery.discover_query(self.project, &q);
        let cands = self.discovery.matching_symbols(&q);
        proof {
            assert(cands@ == matching_text(self.discovery, text));
            assert(name_discovered(old(self).discovery, self.discovery, q.terminal_name@));
        }
        let mut calls: Vec<CandidateCallId> = Vec::new();
        let n = cands.len();
        for i in 0..n
            invariant
                n == cands@.len(),
                self.wf(),
                calls@ == calls_of(self.discovery, cands@.take(i as int)),
        {
            let list = self.discovery.candidate_callees(cands[i]);
            let m = list.len();
            let ghost before = calls@;
            for j in 0..m
                invariant
                    m == list@.len(),
                    calls@ == before + list@.take(j as int),
            {
                calls.push(list[j]);
                proof {
                    assert(list@.take(j + 1) =~= list@.take(j as int).push(list@[j as int]));
                }
            }
            proof {
                assert(list@.take(m as int) =~= list@);
                assert(cands@.take(i + 1).drop_last() =~= cands@.take(i as int));
            }
        }
        proof {
            assert(cands@.take(n as int) =~= cands@);
        }
        calls
    }

    /// Path search between resolved symbols: forward, breadth first, each symbol
    /// expanded at its best depth, up to the depth limit, until the target is
    /// reached; the path goes back from the target through the predecessors.
    #[verifier::spinoff_prover]
    #[verifier::rlimit(100)]
    pub fn path_from(&mut self, source_sym: Symbol, target_sym: Symbol, max_depth: Option<usize>, verified_only: bool,
        metrics: &mut QueryMetrics, diags: &mut Vec<Diagnostic>) -> (r: QueryResult)
        requires
            old(self).wf(),
        ensures
            final(self).project == old(self).project,
            log_extends(old(self).backend_calls@, final(self).backend_calls@),
            final(self).wf(),
            path_result_ok(r, source_sym.id, target_sym.id, verified_only, max_depth),
            exists|given: Seq<CallEdge>| #[trigger] merged_from(r.edges@, given, verified_only),
            exists|steps: Seq<CalleeStep>| {
                &&& #[trigger] callee_steps_chain(steps, old(self).discovery, final(self).discovery,
                    old(self).backend_calls@.len() as int, final(self).backend_calls@.len() as int)
                &&& forall|k: int| 0 <= k < steps.len() ==>
                    #[trigger] callee_step_ok(steps[k], final(self).backend_calls@, old(self).project.compilation_db)
                &&& merged_from(r.edges@, callee_given_of(steps, final(self).backend_calls@), verified_only)
                &&& enc_symbol_id(source_sym.id) != enc_symbol_id(target_sym.id) && max_depth != Some(0usize) ==>
                    steps.len() > 0 && enc_symbol_id(steps[0].0) == enc_symbol_id(source_sym.id)
            },
            enc_symbol_id(source_sym.id) == enc_symbol_id(target_sym.id) ==> {
                &&& *final(self) == *old(self)
                &&& r.completion == Completion::Complete
                &&& r.edges@.len() == 0
                &&& r.paths@.len() == 1
                &&& r.paths@[0].nodes@ == seq![source_sym.id]
            },
    {
        let source_id = source_sym.id.clone();
        let target_id = target_sym.id.clone();
        let mut symbols_map: OrdMap<Symbol> = OrdMap::new();
        record_symbol(&mut symbols_map, source_sym);
        record_symbol(&mut symbols_map, target_sym);
        if same_symbol_id(&source_id, &target_id) {
            let mut nodes: Vec<SymbolId> = Vec::new();
            nodes.push(source_id.clone());
            let path = CallPath { nodes, edges: Vec::new() };
            let mut paths: Vec<CallPath> = Vec::new();
            paths.push(path);
            let edges_vec: Vec<CallEdge> = Vec::new();
            let counts = calculate_counts(&symbols_map, edges_vec.as_slice(), paths.as_slice());
            let r = QueryResult {
                completion: Completion::Complete,
                symbols: symbols_map,
                edges: edges_vec,
                paths,
                counts,
                diagnostics: Vec::new(),
                metrics: empty_metrics(),
            };
            proof {
                assert(edge_keys(r.edges@) =~= Seq::<Seq<u32>>::empty());
                assert(r.paths@[0].nodes@[0] == source_id);
                assert(r.paths@[0].nodes@ =~= seq![source_sym.id]);
                assert(merged_from(r.edges@, Seq::<CallEdge>::empty(), verified_only));
                assert(callee_steps_chain(Seq::<CalleeStep>::empty(), old(self).discovery, self.discovery,
                    old(self).backend_calls@.len() as int, self.backend_calls@.len() as int));
                assert(callee_given_of(Seq::<CalleeStep>::empty(), self.backend_calls@) =~= Seq::<CallEdge>::empty());
            }
            return r;
        }
        let sk = symbol_id_key(&source_id);
        let mut state = TraversalState {
            frontier: Vec::new(),
            best_depth: OrdMap::new(),
            predecessors: OrdMap::new(),
            edges: OrdMap::new(),
        };
        state.frontier.push(FrontierItem { symbol: source_id.clone(), depth: 0, predecessor: None });
        let bp = state.best_depth.insert(sk.clone(), 0);
        proof {
            crate::order::lemma_pos_of(state.best_depth, bp as int);
            assert(state.best_depth.key_view() =~= seq![sk@]);
        }
        let mut verified_tu_keys: OrdMap<CompilationKey> = OrdMap::new();
        let mut found = false;
        let mut truncated = false;
        let mut head: usize = 0;
        let ghost mut given: Seq<CallEdge> = Seq::empty();
        let ghost mut steps: Seq<CalleeStep> = Seq::empty();
        let ghost db = self.project.compilation_db;
        assert(state.edges.key_view() =~= Seq::<Seq<u32>>::empty());
        while head < state.frontier.len()
            invariant_except_break
                !found,
            invariant
                self.wf(),
                self.project == old(self).project,
                log_extends(old(self).backend_calls@, self.backend_calls@),
                db == old(self).project.compilation_db,
                callee_steps_chain(steps, old(self).discovery, self.discovery,
                    old(self).backend_calls@.len() as int, self.backend_calls@.len() as int),
                forall|k: int| 0 <= k < steps.len() ==> #[trigger] callee_step_ok(steps[k], self.backend_calls@, db),
                given == callee_given_of(steps, self.backend_calls@),
                state.frontier@.len() > 0,
                state.frontier@[0].symbol == source_id,
                enc_symbol_id(source_id) != enc_symbol_id(target_id),
                head > 0 && max_depth != Some(0usize) ==> steps.len() > 0 && enc_symbol_id(steps[0].0) == enc_symbol_id(source_id),
                head == 0 ==> steps.len() == 0,
                forall|k: Seq<u32>| #[trigger] state.edges.contains(k) <==> kept_key(given, verified_only, k),
                forall|i: int| 0 <= i < state.edges.size() ==> head_given(#[trigger] state.edges.vals@[i], given, verified_only),
                state.path_ok(sk@),
                sk@ == enc_symbol_id(source_id),
                sym_map_wf(symbols_map),
                symbols_map.contains(enc_symbol_id(source_id)),
                symbols_map.contains(enc_symbol_id(target_id)),
                verified_tu_keys.wf(),
                head <= state.frontier@.len(),
                truncated ==> max_depth is Some,
                found ==> state.best_depth.contains(enc_symbol_id(target_id)),
                max_depth matches Some(l) ==> forall|p: int| 0 <= p < state.frontier@.len() ==> (#[trigger] state.frontier@[p]).depth <= l,
                found ==> (max_depth matches Some(l) ==> value_of(state.best_depth, enc_symbol_id(target_id)) <= l),
                forall|i: int| 0 <= i < state.edges.size() ==>
                    (verified_only ==> (#[trigger] state.edges.vals@[i]).confidence == Confidence::Confirmed),
            ensures
                head > 0,
            decreases usize::MAX - head,
        {
            let item_symbol = state.frontier[head].symbol.clone();
            let item_depth = state.frontier[head].depth;
            let ghost h = head as int;
            let ghost h0 = head;
            proof {
                if h0 == 0 {
                    assert(item_symbol == source_id);
                    assert(state.frontier@[0].depth <= 0);
                }
            }
            head = head + 1;
            if same_symbol_id(&item_symbol, &target_id) {
                proof {
                    let it = state.frontier@[h];
                    assert(state.best_depth.contains(enc_symbol_id(it.symbol)));
                }
                proof {
                    let it = state.frontier@[h];
                    assert(value_of(state.best_depth, enc_symbol_id(it.symbol)) <= it.depth);
                }
                found = true;
                break;
            }
            match max_depth {
                Some(limit) => {
                    if item_depth >= limit {
                        truncated = true;
                        continue;
                    }
                },
                None => {},
            }
            let cur_sym = match lookup_symbol(&symbols_map, &item_symbol) {
                Some(s) => s.clone(),
                None => continue,
            };
            let ghost d_before = self.discovery;
            let ghost l_before = self.backend_calls@;
            let calls_to_verify = self.calls_within(&cur_sym);
            let ghost d_mid = self.discovery;
            let ghost l_mid = self.backend_calls@;
            assert(l_mid == l_before);
            let (verified, checked) = self.verify_grouped(calls_to_verify.as_slice(), &mut symbols_map, &mut verified_tu_keys, diags);
            let ghost l_after = self.backend_calls@;
            let ghost bs0 = choose|bs: OrdMap<(CompilationKey, Vec<CandidateCallId>)>| #[trigger] context_grouping(bs, d_mid, db, calls_to_verify@)
                && batches_handed(l_after.subrange(l_before.len() as int, l_after.len() as int), bs)
                && verified@ == answered_edges(l_after.subrange(l_before.len() as int, l_after.len() as int))
                && checked == any_checked(l_after.subrange(l_before.len() as int, l_after.len() as int));
            proof {
                let sg = l_after.subrange(l_before.len() as int, l_after.len() as int);
                assert(context_grouping(bs0, d_mid, db, calls_to_verify@) && batches_handed(sg, bs0));
            }
            let ghost mut fb: Seq<CallEdge> = Seq::empty();
            let mut item_edges = verified;
            if !checked {
                let (fb_syms, mut fb_edges) = self.syntactic_callees(calls_to_verify.as_slice(), &item_symbol);
                proof {
                    fb = fb_edges@;
                    let ds = choose|ds: Seq<DiscoveryIndex>| {
                        &&& ds.len() == calls_to_verify@.len() + 1
                        &&& ds[0] == d_mid
                        &&& ds[calls_to_verify@.len() as int] == self.discovery
                        &&& forall|j: int| 0 <= j < calls_to_verify@.len() ==> #[trigger] callee_step(ds[j], ds[j + 1], calls_to_verify@[j])
                        &&& callees_traced(ds, calls_to_verify@, item_symbol, fb_syms@, fb_edges@)
                    };
                    assert(callees_traced(ds, calls_to_verify@, item_symbol, fb_syms@, fb));
                    assert(exists|ds: Seq<DiscoveryIndex>, syms: Seq<Symbol>| {
                        &&& ds.len() == calls_to_verify@.len() + 1
                        &&& ds[0] == d_mid
                        &&& ds[calls_to_verify@.len() as int] == self.discovery
                        &&& forall|j: int| 0 <= j < calls_to_verify@.len() ==> #[trigger] callee_step(ds[j], ds[j + 1], calls_to_verify@[j])
                        &&& #[trigger] callees_traced(ds, calls_to_verify@, item_symbol, syms, fb)
                    });
                }
                record_verified_symbols(&mut symbols_map, fb_syms);
                item_edges.append(&mut fb_edges);
            }
            proof {
                let seg_i = l_after.subrange(l_before.len() as int, l_after.len() as int);
                let st: CalleeStep = (item_symbol, cur_sym, d_before, d_mid, calls_to_verify@,
                    l_before.len() as int, l_after.len() as int, fb, self.discovery);
                assert(item_edges@ == answered_edges(seg_i) + fb);
                assert(any_checked(seg_i) == checked);
                assert(0 <= st.5 <= st.6 <= l_after.len());
                assert(context_grouping(bs0, st.3, db, st.4) && batches_handed(seg_i, bs0));
                assert(enc_symbol_id(st.1.id) == enc_symbol_id(st.0));
                assert(name_discovered(st.2, st.3, crate::model::split_qualified(crate::text::trim_spec(query_text(st.1))).1));
                assert(st.4 == calls_of(st.3, matching_text(st.3, query_text(st.1))));
                assert(any_checked(seg_i) ==> st.7.len() == 0 && st.8 == st.3);
                if !checked {
                    let (ds, syms) = choose|ds: Seq<DiscoveryIndex>, syms: Seq<Symbol>| {
                        &&& ds.len() == calls_to_verify@.len() + 1
                        &&& ds[0] == d_mid
                        &&& ds[calls_to_verify@.len() as int] == self.discovery
                        &&& forall|j: int| 0 <= j < calls_to_verify@.len() ==> #[trigger] callee_step(ds[j], ds[j + 1], calls_to_verify@[j])
                        &&& #[trigger] callees_traced(ds, calls_to_verify@, item_symbol, syms, fb)
                    };
                    assert(callees_traced(ds, st.4, st.0, syms, st.7));
                    assert(ds[st.4.len() as int] == st.8);
                }
                assert(callee_step_ok(st, l_after, db));
                assert forall|k: int| 0 <= k < steps.len() implies 0 <= #[trigger] steps[k].5 <= steps[k].6 <= l_before.len() by {
                    assert(callee_step_ok(steps[k], l_before, db));
                }
                lemma_callee_given_kept(steps, l_before, l_after);
                assert forall|k: int| 0 <= k < steps.len() implies #[trigger] callee_step_ok(steps[k], l_after, db) by {
                    assert(callee_step_ok(steps[k], l_before, db));
                    lemma_log_segment_kept(l_before, l_after, steps[k].5, steps[k].6);
                    assert(l_after.subrange(steps[k].5, steps[k].6) == l_before.subrange(steps[k].5, steps[k].6));
                }
                let ns = steps.push(st);
                assert(ns.drop_last() =~= steps);
                assert(callee_given_of(ns, l_after) == given + answered_edges(seg_i) + fb);
                assert forall|k: int| 0 < k < ns.len() implies #[trigger] ns[k].2 == ns[k - 1].8 && ns[k].5 == ns[k - 1].6 by {
                    if k < steps.len() {
                        assert(ns[k] == steps[k] && ns[k - 1] == steps[k - 1]);
                    }
                }
                if steps.len() > 0 {
                    assert(ns[0] == steps[0]);
                }
                steps = ns;
            }
            let ghost gi = given;
            let ghost orig = item_edges@;
            let mut pending = reversed(item_edges);
            while pending.len() > 0
                invariant
                    pending@.len() <= orig.len(),
                    forall|j: int| 0 <= j < pending@.len() ==> #[trigger] pending@[j] == orig[orig.len() - 1 - j],
                    given == gi + orig.take(orig.len() - pending@.len()),
                    state.frontier@.len() > 0,
                    state.frontier@[0].symbol == source_id,
                    self.wf(),
                    self.project == old(self).project,
                    log_extends(old(self).backend_calls@, self.backend_calls@),
                    state.path_ok(sk@),
                    sk@ == enc_symbol_id(source_id),
                    sym_map_wf(symbols_map),
                    symbols_map.contains(enc_symbol_id(source_id)),
                    symbols_map.contains(enc_symbol_id(target_id)),
                    verified_tu_keys.wf(),
                    head <= state.frontier@.len(),
                    0 <= h < head,
                    state.frontier@[h].symbol == item_symbol,
                    state.frontier@[h].depth == item_depth,
                    found ==> state.best_depth.contains(enc_symbol_id(target_id)),
                    truncated ==> max_depth is Some,
                    max_depth matches Some(l) ==> forall|p: int| 0 <= p < state.frontier@.len() ==> (#[trigger] state.frontier@[p]).depth <= l,
                    max_depth matches Some(l) ==> item_depth < l,
                    !found,
                    forall|i: int| 0 <= i < state.edges.size() ==>
                        (verified_only ==> (#[trigger] state.edges.vals@[i]).confidence == Confidence::Confirmed),
                    forall|k: Seq<u32>| #[trigger] state.edges.contains(k) <==> kept_key(given, verified_only, k),
                    forall|i: int| 0 <= i < state.edges.size() ==> head_given(#[trigger] state.edges.vals@[i], given, verified_only),
                decreases pending@.len(),
            {
                let edge = pending.pop().unwrap();
                let ghost g0 = given;
                proof {
                    let t = orig.len() - pending@.len() - 1;
                    assert(edge == orig[t]);
                    assert(orig.take(t + 1) =~= orig.take(t).push(edge));
                    given = g0.push(edge);
                    assert(given[g0.len() as int] == edge);
                    assert forall|k: Seq<u32>| #[trigger] kept_key(g0, verified_only, k) implies kept_key(given, verified_only, k) by {
                        let j = choose|j: int| 0 <= j < g0.len() && callee_kept(g0[j], verified_only) && #[trigger] edge_key_of(g0[j]) == k;
                        assert(given[j] == g0[j]);
                    }
                    assert forall|i: int| 0 <= i < state.edges.size() implies head_given(#[trigger] state.edges.vals@[i], given, verified_only) by {
                        assert(head_given(state.edges.vals@[i], g0, verified_only));
                        let j = choose|j: int| 0 <= j < g0.len() && callee_kept(g0[j], verified_only) && #[trigger] same_head(state.edges.vals@[i], g0[j]);
                        assert(given[j] == g0[j]);
                    }
                }
                if !keeps_callee_edge(&edge, verified_only) {
                    proof {
                        assert forall|k: Seq<u32>| #[trigger] kept_key(given, verified_only, k) implies kept_key(g0, verified_only, k) by {
                            let j = choose|j: int| 0 <= j < given.len() && callee_kept(given[j], verified_only) && #[trigger] edge_key_of(given[j]) == k;
                            assert(j < g0.len());
                            assert(given[j] == g0[j]);
                        }
                    }
                    continue;
                }
                let edge_id = edge.id;
                let callee_opt = edge.callee.clone();
                record_symbols_from_edge(&mut symbols_map, &edge);
                let ghost e0 = edge;
                let ghost old_edges = state.edges;
                state.record_edge(edge, Ghost(sk@));
                proof {
                    assert forall|k: Seq<u32>| #[trigger] state.edges.contains(k) implies kept_key(given, verified_only, k) by {
                        if state.edges.contains(k) {
                            let i = choose|i: int| 0 <= i < state.edges.key_view().len() && state.edges.key_view()[i] == k;
                            assert(state.edges.key_view()[i] == edge_key_of(state.edges.vals@[i]));
                            if same_head(state.edges.vals@[i], e0) {
                                assert(edge_key_of(given[g0.len() as int]) == k);
                            } else {
                                let j = choose|j: int| 0 <= j < old_edges.size() && same_head(state.edges.vals@[i], #[trigger] old_edges.vals@[j]);
                                assert(old_edges.key_view()[j] == edge_key_of(old_edges.vals@[j]));
                                assert(old_edges.contains(k));
                            }
                        }
                    }
                    assert forall|k: Seq<u32>| #[trigger] kept_key(given, verified_only, k) implies state.edges.contains(k) by {
                        let j = choose|j: int| 0 <= j < given.len() && callee_kept(given[j], verified_only) && #[trigger] edge_key_of(given[j]) == k;
                        if j < g0.len() {
                            assert(given[j] == g0[j]);
                            assert(kept_key(g0, verified_only, k));
                            assert(old_edges.contains(k));
                        } else {
                            assert(given[j] == e0);
                        }
                    }
                    assert forall|i: int| 0 <= i < state.edges.size() implies head_given(#[trigger] state.edges.vals@[i], given, verified_only) by {
                        let e = state.edges.vals@[i];
                        if same_head(e, e0) {
                            assert(same_head(e, given[g0.len() as int]));
                        } else {
                            let j0 = choose|j: int| 0 <= j < old_edges.size() && same_head(e, #[trigger] old_edges.vals@[j]);
                            assert(head_given(old_edges.vals@[j0], given, verified_only));
                            let j = choose|j: int| 0 <= j < given.len() && callee_kept(given[j], verified_only)
                                && #[trigger] same_head(old_edges.vals@[j0], given[j]);
                            assert(same_head(e, given[j]));
                        }
                    }
                    assert forall|i: int| 0 <= i < state.edges.size() implies
                        (verified_only ==> (#[trigger] state.edges.vals@[i]).confidence == Confidence::Confirmed) by {
                        let e = state.edges.vals@[i];
                        if !same_head(e, e0) {
                            let j = choose|j: int| 0 <= j < old_edges.size() && same_head(e, #[trigger] old_edges.vals@[j]);
                            assert(verified_only ==> old_edges.vals@[j].confidence == Confidence::Confirmed);
                        }
                    }
                }
                match callee_opt {
                    Some(callee) => {
                        proof {
                            assert(state.frontier@[h].depth <= h);
                            assert(state.best_depth.contains(enc_symbol_id(item_symbol)));
                            assert(edge_into(e0, enc_symbol_id(callee), edge_id));
                            assert(state.edges.contains(edge_key_of(e0)));
                        }
                        state.offer(callee, &item_symbol, item_depth, edge_id, Ghost(sk@));
                    },
                    None => {},
                }
            }
        }
        metrics.verified_translation_units = verified_tu_keys.len();
        proof { lemma_edge_vals_sorted(state.edges); }
        let ghost em = state.edges;
        let mut paths: Vec<CallPath> = Vec::new();
        let completion;
        if found {
            let p = reconstruct_path(&state, &source_id, &target_id, Ghost(sk@));
            paths.push(p);
            completion = Completion::Complete;
        } else if truncated {
            completion = Completion::Truncated { max_depth: match max_depth { Some(d) => d, None => 0 } };
        } else {
            completion = Completion::NoResult;
        }
        let edges_vec = state.edges.vals;
        proof {
            assert(edge_keys(em.vals@) =~= em.key_view());
            assert forall|k: Seq<u32>| edge_keys(edges_vec@).contains(k) <==> #[trigger] kept_key(given, verified_only, k) by {
                assert(em.contains(k) <==> kept_key(given, verified_only, k));
            }
            assert forall|i: int| 0 <= i < edges_vec@.len() implies head_given(#[trigger] edges_vec@[i], given, verified_only) by {
                assert(edges_vec@[i] == em.vals@[i]);
            }
            assert(merged_from(edges_vec@, given, verified_only));
            assert(merged_from(edges_vec@, callee_given_of(steps, self.backend_calls@), verified_only));
            assert(callee_steps_chain(steps, old(self).discovery, self.discovery,
                old(self).backend_calls@.len() as int, self.backend_calls@.len() as int));
            assert(head > 0);
        }
        let counts = calculate_counts(&symbols_map, edges_vec.as_slice(), paths.as_slice());
        QueryResult {
            completion,
            symbols: symbols_map,
            edges: edges_vec,
            paths,
            counts,
            diagnostics: Vec::new(),
            metrics: empty_metrics(),
        }
    }
}


impl<'a, S: SemanticProvider> QueryEngine<'a, S> {
    /// Forward search from a resolved source (`callees`): breadth first, each
    /// symbol expanded at its best depth, up to the depth limit. Every verified
    /// edge of the calls within the expanded symbol is kept when it is confirmed
    /// or only confirmed edges are not asked for; edges with one merge key are
    /// merged; the callees of kept edges are expanded next.
    #[verifier::spinoff_prover]
    #[verifier::rlimit(100)]
    pub fn callees_from(&mut self, source_sym: Symbol, max_depth: Option<usize>, verified_only: bool,
        metrics: &mut QueryMetrics, diags: &mut Vec<Diagnostic>) -> (r: QueryResult)
        requires
            old(self).wf(),
        ensures
            final(self).project == old(self).project,
            log_extends(old(self).backend_calls@, final(self).backend_calls@),
            final(self).wf(),
            callees_result_ok(r, source_sym.id, verified_only, max_depth),
            exists|given: Seq<CallEdge>| #[trigger] merged_from(r.edges@, given, verified_only),
            exists|steps: Seq<CalleeStep>| {
                &&& #[trigger] callee_steps_chain(steps, old(self).discovery, final(self).discovery,
                    old(self).backend_calls@.len() as int, final(self).backend_calls@.len() as int)
                &&& forall|k: int| 0 <= k < steps.len() ==>
                    #[trigger] callee_step_ok(steps[k], final(self).backend_calls@, old(self).project.compilation_db)
                &&& merged_from(r.edges@, callee_given_of(steps, final(self).backend_calls@), verified_only)
                &&& max_depth != Some(0usize) ==> steps.len() > 0 && enc_symbol_id(steps[0].0) == enc_symbol_id(source_sym.id)
                &&& exists|depths: Seq<int>, parents: Seq<int>| #[trigger] callee_depths_ok(steps, depths, parents, final(self).backend_calls@, verified_only, max_depth)
                    && (r.completion matches Completion::Truncated { max_depth: d } ==>
                        reached_depth_limit(steps, depths, final(self).backend_calls@, verified_only, d))
            },
    {
        let mut symbols_map: OrdMap<Symbol> = OrdMap::new();
        let source_id = source_sym.id.clone();
        record_symbol(&mut symbols_map, source_sym);
        let mut edges: OrdMap<CallEdge> = OrdMap::new();
        let mut frontier: Vec<FrontierItem> = Vec::new();
        frontier.push(FrontierItem { symbol: source_id.clone(), depth: 0, predecessor: None });
        let mut best_depth: OrdMap<usize> = OrdMap::new();
        let _ = best_depth.insert(symbol_id_key(&source_id), 0);
        let mut verified_tu_keys: OrdMap<CompilationKey> = OrdMap::new();
        let mut truncated = false;
        let mut head: usize = 0;
        let ghost mut given: Seq<CallEdge> = Seq::empty();
        let ghost mut steps: Seq<CalleeStep> = Seq::empty();
        let ghost db = self.project.compilation_db;
        let ghost mut depths: Seq<int> = Seq::empty();
        let ghost mut parents: Seq<int> = Seq::empty();
        let ghost mut fsrc: Seq<int> = seq![0];
        let ghost mut fpos: Seq<int> = Seq::empty();
        while head < frontier.len()
            invariant
                callee_depths_ok(steps, depths, parents, self.backend_calls@, verified_only, max_depth),
                fsrc.len() == frontier@.len(),
                forall|p: int| #![trigger frontier@[p]] 0 < p < frontier@.len() ==> 0 <= fsrc[p] < steps.len()
                    && frontier@[p].depth == depths[fsrc[p]] + 1
                    && gives_callee(steps[fsrc[p]], self.backend_calls@, verified_only, frontier@[p].symbol),
                fpos.len() == steps.len(),
                forall|k: int| #![trigger fpos[k]] 0 <= k < steps.len() ==> 0 <= fpos[k] < head
                    && steps[k].0 == frontier@[fpos[k]].symbol && depths[k] == frontier@[fpos[k]].depth && (k > 0 ==> fpos[k] > 0),
                truncated ==> (max_depth matches Some(d) && (d == 0 || reached_depth_limit(steps, depths, self.backend_calls@, verified_only, d))),
                self.wf(),
                self.project == old(self).project,
                log_extends(old(self).backend_calls@, self.backend_calls@),
                db == old(self).project.compilation_db,
                callee_steps_chain(steps, old(self).discovery, self.discovery,
                    old(self).backend_calls@.len() as int, self.backend_calls@.len() as int),
                forall|k: int| 0 <= k < steps.len() ==> #[trigger] callee_step_ok(steps[k], self.backend_calls@, db),
                given == callee_given_of(steps, self.backend_calls@),
                frontier@.len() > 0,
                frontier@[0].symbol == source_id,
                head > 0 && max_depth != Some(0usize) ==> steps.len() > 0 && enc_symbol_id(steps[0].0) == enc_symbol_id(source_id),
                head == 0 ==> steps.len() == 0,
                forall|k: Seq<u32>| #[trigger] edges.contains(k) <==> kept_key(given, verified_only, k),
                forall|i: int| 0 <= i < edges.size() ==> head_given(#[trigger] edges.vals@[i], given, verified_only),
                sym_map_wf(symbols_map),
                symbols_map.contains(enc_symbol_id(source_id)),
                edge_map_wf(edges),
                best_depth.wf(),
                verified_tu_keys.wf(),
                head <= frontier@.len(),
                forall|p: int| 0 <= p < frontier@.len() ==> (#[trigger] frontier@[p]).depth <= p,
                truncated ==> max_depth is Some,
                forall|i: int| 0 <= i < edges.size() ==> callee_edge_ok(#[trigger] edges.vals@[i], verified_only),
                max_depth == Some(0usize) ==> edges.size() == 0,
            decreases usize::MAX - head,
        {
            let item_symbol = frontier[head].symbol.clone();
            let item_depth = frontier[head].depth;
            let ghost h0 = head;
            proof {
                if h0 == 0 {
                    assert(item_symbol == source_id);
                    assert(item_depth == 0);
                }
            }
            head = head + 1;
            match max_depth {
                Some(limit) => {
                    if item_depth >= limit {
                        proof {
                            if h0 > 0 && limit > 0 {
                                let j = fsrc[h0 as int];
                                assert(frontier@[h0 as int].depth == depths[j] + 1);
                                assert(depths[j] < limit);
                                assert(gives_callee(steps[j], self.backend_calls@, verified_only, frontier@[h0 as int].symbol));
                                assert(reached_depth_limit(steps, depths, self.backend_calls@, verified_only, limit));
                            }
                        }
                        truncated = true;
                        continue;
                    }
                },
                None => {},
            }
            let cur_sym = match lookup_symbol(&symbols_map, &item_symbol) {
                Some(s) => s.clone(),
                None => continue,
            };
            let ghost d_before = self.discovery;
            let ghost l_before = self.backend_calls@;
            let calls_to_verify = self.calls_within(&cur_sym);
            let ghost d_mid = self.discovery;
            metrics.semantic_candidates_verified = metrics.semantic_candidates_verified.saturating_add(calls_to_verify.len());
            let verify_start = crate::clock::instant_now();
            let ghost l_mid = self.backend_calls@;
            assert(l_mid == l_before);
            assert(self.discovery == d_mid);
            let (verified, checked) = self.verify_grouped(calls_to_verify.as_slice(), &mut symbols_map, &mut verified_tu_keys, diags);
            let ghost l_after = self.backend_calls@;
            let ghost bs0 = choose|bs: OrdMap<(CompilationKey, Vec<CandidateCallId>)>| #[trigger] context_grouping(bs, d_mid, db, calls_to_verify@)
                && batches_handed(l_after.subrange(l_before.len() as int, l_after.len() as int), bs)
                && verified@ == answered_edges(l_after.subrange(l_before.len() as int, l_after.len() as int))
                && checked == any_checked(l_after.subrange(l_before.len() as int, l_after.len() as int));
            proof {
                let sg = l_after.subrange(l_before.len() as int, l_after.len() as int);
                assert(context_grouping(bs0, d_mid, db, calls_to_verify@) && batches_handed(sg, bs0));
            }
            let ghost mut fb: Seq<CallEdge> = Seq::empty();
            let mut item_edges = verified;
            if !checked {
                let (fb_syms, mut fb_edges) = self.syntactic_callees(calls_to_verify.as_slice(), &item_symbol);
                proof {
                    fb = fb_edges@;
                    let ds = choose|ds: Seq<DiscoveryIndex>| {
                        &&& ds.len() == calls_to_verify@.len() + 1
                        &&& ds[0] == d_mid
                        &&& ds[calls_to_verify@.len() as int] == self.discovery
                        &&& forall|j: int| 0 <= j < calls_to_verify@.len() ==> #[trigger] callee_step(ds[j], ds[j + 1], calls_to_verify@[j])
                        &&& callees_traced(ds, calls_to_verify@, item_symbol, fb_syms@, fb_edges@)
                    };
                    assert(callees_traced(ds, calls_to_verify@, item_symbol, fb_syms@, fb));
                    assert(exists|ds: Seq<DiscoveryIndex>, syms: Seq<Symbol>| {
                        &&& ds.len() == calls_to_verify@.len() + 1
                        &&& ds[0] == d_mid
                        &&& ds[calls_to_verify@.len() as int] == self.discovery
                        &&& forall|j: int| 0 <= j < calls_to_verify@.len() ==> #[trigger] callee_step(ds[j], ds[j + 1], calls_to_verify@[j])
                        &&& #[trigger] callees_traced(ds, calls_to_verify@, item_symbol, syms, fb)
                    });
                }
                record_verified_symbols(&mut symbols_map, fb_syms);
                item_edges.append(&mut fb_edges);
            }
            proof {
                let seg_i = l_after.subrange(l_before.len() as int, l_after.len() as int);
                let st: CalleeStep = (item_symbol, cur_sym, d_before, d_mid, calls_to_verify@,
                    l_before.len() as int, l_after.len() as int, fb, self.discovery);
                assert(item_edges@ == answered_edges(seg_i) + fb);
                assert(any_checked(seg_i) == checked);
                assert(0 <= st.5 <= st.6 <= l_after.len());
                assert(context_grouping(bs0, st.3, db, st.4) && batches_handed(seg_i, bs0));
                assert(enc_symbol_id(st.1.id) == enc_symbol_id(st.0));
                assert(name_discovered(st.2, st.3, crate::model::split_qualified(crate::text::trim_spec(query_text(st.1))).1));
                assert(st.4 == calls_of(st.3, matching_text(st.3, query_text(st.1))));
                assert(any_checked(seg_i) ==> st.7.len() == 0 && st.8 == st.3);
                if !checked {
                    let (ds, syms) = choose|ds: Seq<DiscoveryIndex>, syms: Seq<Symbol>| {
                        &&& ds.len() == calls_to_verify@.len() + 1
                        &&& ds[0] == d_mid
                        &&& ds[calls_to_verify@.len() as int] == self.discovery
                        &&& forall|j: int| 0 <= j < calls_to_verify@.len() ==> #[trigger] callee_step(ds[j], ds[j + 1], calls_to_verify@[j])
                        &&& #[trigger] callees_traced(ds, calls_to_verify@, item_symbol, syms, fb)
                    };
                    assert(callees_traced(ds, st.4, st.0, syms, st.7));
                    assert(ds[st.4.len() as int] == st.8);
                }
                assert(callee_step_ok(st, l_after, db));
                assert forall|k: int| 0 <= k < steps.len() implies 0 <= #[trigger] steps[k].5 <= steps[k].6 <= l_before.len() by {
                    assert(callee_step_ok(steps[k], l_before, db));
                }
                lemma_callee_given_kept(steps, l_before, l_after);
                assert forall|k: int| 0 <= k < steps.len() implies #[trigger] callee_step_ok(steps[k], l_after, db) by {
                    assert(callee_step_ok(steps[k], l_before, db));
                    lemma_log_segment_kept(l_before, l_after, steps[k].5, steps[k].6);
                    assert(l_after.subrange(steps[k].5, steps[k].6) == l_before.subrange(steps[k].5, steps[k].6));
                }
                let ns = steps.push(st);
                assert(ns.drop_last() =~= steps);
                assert(callee_given_of(ns, l_after) == given + answered_edges(seg_i) + fb);
                assert forall|k: int| 0 < k < ns.len() implies #[trigger] ns[k].2 == ns[k - 1].8 && ns[k].5 == ns[k - 1].6 by {
                    if k < steps.len() {
                        assert(ns[k] == steps[k] && ns[k - 1] == steps[k - 1]);
                    }
                }
                if steps.len() > 0 {
                    assert(ns[0] == steps[0]);
                }
                let nd = depths.push(item_depth as int);
                let nf = fpos.push(h0 as int);
                let np = parents.push(if h0 > 0 { fsrc[h0 as int] } else { 0 });
                lemma_depths_step(steps, depths, parents, fsrc, fpos, frontier@, h0 as int, st, l_before, l_after,
                    verified_only, max_depth, truncated);
                assert(step_edges(st, l_after) == item_edges@);
                depths = nd;
                parents = np;
                fpos = nf;
                steps = ns;
            }
            let ghost gi = given;
            let ghost orig = item_edges@;
            let mut pending = reversed(item_edges);
            while pending.len() > 0
                invariant
                    pending@.len() <= orig.len(),
                    forall|j: int| 0 <= j < pending@.len() ==> #[trigger] pending@[j] == orig[orig.len() - 1 - j],
                    given == gi + orig.take(orig.len() - pending@.len()),
                    frontier@.len() > 0,
                    frontier@[0].symbol == source_id,
                    self.wf(),
                    self.project == old(self).project,
                    log_extends(old(self).backend_calls@, self.backend_calls@),
                    sym_map_wf(symbols_map),
                    symbols_map.contains(enc_symbol_id(source_id)),
                    edge_map_wf(edges),
                    best_depth.wf(),
                    verified_tu_keys.wf(),
                    head <= frontier@.len(),
                    item_depth < head,
                    forall|p: int| 0 <= p < frontier@.len() ==> (#[trigger] frontier@[p]).depth <= p,
                    truncated ==> max_depth is Some,
                    forall|i: int| 0 <= i < edges.size() ==> callee_edge_ok(#[trigger] edges.vals@[i], verified_only),
                    max_depth != Some(0usize),
                    forall|k: Seq<u32>| #[trigger] edges.contains(k) <==> kept_key(given, verified_only, k),
                    forall|i: int| 0 <= i < edges.size() ==> head_given(#[trigger] edges.vals@[i], given, verified_only),
                    self.backend_calls@ == l_after,
                    steps.len() > 0,
                    step_edges(steps.last(), l_after) == orig,
                    depths.last() == item_depth,
                    callee_depths_ok(steps, depths, parents, self.backend_calls@, verified_only, max_depth),
                    fsrc.len() == frontier@.len(),
                    forall|p: int| #![trigger frontier@[p]] 0 < p < frontier@.len() ==> 0 <= fsrc[p] < steps.len()
                        && frontier@[p].depth == depths[fsrc[p]] + 1
                        && gives_callee(steps[fsrc[p]], self.backend_calls@, verified_only, frontier@[p].symbol),
                    fpos.len() == steps.len(),
                    forall|k: int| #![trigger fpos[k]] 0 <= k < steps.len() ==> 0 <= fpos[k] < head
                        && steps[k].0 == frontier@[fpos[k]].symbol && depths[k] == frontier@[fpos[k]].depth && (k > 0 ==> fpos[k] > 0),
                    truncated ==> (max_depth matches Some(d) && (d == 0 || reached_depth_limit(steps, depths, self.backend_calls@, verified_only, d))),
                decreases pending@.len(),
            {
                let edge = pending.pop().unwrap();
                let ghost g0 = given;
                proof {
                    let t = orig.len() - pending@.len() - 1;
                    assert(edge == orig[t]);
                    assert(orig.take(t + 1) =~= orig.take(t).push(edge));
                    given = g0.push(edge);
                    assert(given[g0.len() as int] == edge);
                    assert forall|k: Seq<u32>| #[trigger] kept_key(g0, verified_only, k) implies kept_key(given, verified_only, k) by {
                        let j = choose|j: int| 0 <= j < g0.len() && callee_kept(g0[j], verified_only) && #[trigger] edge_key_of(g0[j]) == k;
                        assert(given[j] == g0[j]);
                    }
                    assert forall|i: int| 0 <= i < edges.size() implies head_given(#[trigger] edges.vals@[i], given, verified_only) by {
                        assert(head_given(edges.vals@[i], g0, verified_only));
                        let j = choose|j: int| 0 <= j < g0.len() && callee_kept(g0[j], verified_only) && #[trigger] same_head(edges.vals@[i], g0[j]);
                        assert(given[j] == g0[j]);
                    }
                }
                if !keeps_callee_edge(&edge, verified_only) {
                    proof {
                        assert forall|k: Seq<u32>| #[trigger] kept_key(given, verified_only, k) implies kept_key(g0, verified_only, k) by {
                            let j = choose|j: int| 0 <= j < given.len() && callee_kept(given[j], verified_only) && #[trigger] edge_key_of(given[j]) == k;
                            assert(j < g0.len());
                            assert(given[j] == g0[j]);
                        }
                    }
                    continue;
                }
                record_symbols_from_edge(&mut symbols_map, &edge);
                let callee_opt = edge.callee.clone();
                let ghost e0 = edge;
                let ghost old_edges = edges;
                merge_edge(&mut edges, edge);
                proof {
                    assert forall|i: int| 0 <= i < edges.size() implies callee_edge_ok(#[trigger] edges.vals@[i], verified_only) by {
                        let e = edges.vals@[i];
                        if !same_head(e, e0) {
                            let j = choose|j: int| 0 <= j < old_edges.size() && same_head(e, #[trigger] old_edges.vals@[j]);
                            assert(callee_edge_ok(old_edges.vals@[j], verified_only));
                        }
                    }
                    assert forall|k: Seq<u32>| #[trigger] edges.contains(k) <==> kept_key(given, verified_only, k) by {
                        if kept_key(given, verified_only, k) && k != edge_key_of(e0) {
                            let j = choose|j: int| 0 <= j < given.len() && callee_kept(given[j], verified_only) && #[trigger] edge_key_of(given[j]) == k;
                            assert(j < g0.len());
                            assert(given[j] == g0[j]);
                            assert(kept_key(g0, verified_only, k));
                        }
                        if k == edge_key_of(e0) {
                            assert(edge_key_of(given[g0.len() as int]) == k);
                        }
                    }
                    assert forall|i: int| 0 <= i < edges.size() implies head_given(#[trigger] edges.vals@[i], given, verified_only) by {
                        let e = edges.vals@[i];
                        if same_head(e, e0) {
                            assert(given[g0.len() as int] == e0);
                            assert(same_head(e, given[g0.len() as int]));
                        } else {
                            let j0 = choose|j: int| 0 <= j < old_edges.size() && same_head(e, #[trigger] old_edges.vals@[j]);
                            assert(head_given(old_edges.vals@[j0], given, verified_only));
                            let j = choose|j: int| 0 <= j < given.len() && callee_kept(given[j], verified_only)
                                && #[trigger] same_head(old_edges.vals@[j0], given[j]);
                            assert(same_head(e, given[j]));
                        }
                    }
                }
                match callee_opt {
                    Some(callee_id) => {
                        let next_depth = item_depth + 1;
                        let ck = symbol_id_key(&callee_id);
                        let should = match best_depth.find(ck.as_slice()) {
                            Ok(i) => next_depth < *best_depth.value_at(i),
                            Err(_) => true,
                        };
                        if should {
                            let _ = best_depth.insert(ck, next_depth);
                            let ghost fr0 = frontier@;
                            let ghost cid = callee_id;
                            frontier.push(FrontierItem {
                                symbol: callee_id,
                                depth: next_depth,
                                predecessor: Some((item_symbol.clone(), CallEdgeId(0))),
                            });
                            proof {
                                let t = orig.len() - pending@.len() - 1;
                                let lk = steps.len() - 1;
                                assert(steps[lk] == steps.last());
                                assert(step_edges(steps[lk], l_after)[t] == e0);
                                assert(callee_kept(e0, verified_only));
                                assert(gives_callee(steps[lk], l_after, verified_only, cid));
                                assert(depths[lk] == item_depth);
                                let nfs = fsrc.push(lk);
                                assert forall|p: int| #![trigger frontier@[p]] 0 < p < frontier@.len() implies 0 <= nfs[p] < steps.len()
                                    && frontier@[p].depth == depths[nfs[p]] + 1
                                    && gives_callee(steps[nfs[p]], self.backend_calls@, verified_only, frontier@[p].symbol) by {
                                    if p < fr0.len() {
                                        assert(frontier@[p] == fr0[p] && nfs[p] == fsrc[p]);
                                    } else {
                                        assert(frontier@[p].symbol == cid && nfs[p] == lk);
                                    }
                                }
                                assert forall|k: int| #![trigger fpos[k]] 0 <= k < steps.len() implies 0 <= fpos[k] < head
                                    && steps[k].0 == frontier@[fpos[k]].symbol && depths[k] == frontier@[fpos[k]].depth && (k > 0 ==> fpos[k] > 0) by {
                                    assert(frontier@[fpos[k]] == fr0[fpos[k]]);
                                }
                                fsrc = nfs;
                            }
                        }
                    },
                    None => {},
                }
            }
            let spent = crate::clock::nanos_since(&verify_start);
            metrics.verification_time = metrics.verification_time.saturating_add(spent);
        }
        metrics.verified_translation_units = verified_tu_keys.len();
        proof { lemma_edge_vals_sorted(edges); }
        let ghost em = edges;
        let edges_vec = edges.vals;
        let paths: Vec<CallPath> = Vec::new();
        let counts = calculate_counts(&symbols_map, edges_vec.as_slice(), paths.as_slice());
        let completion = if edges_vec.len() == 0 {
            Completion::NoResult
        } else if truncated {
            Completion::Truncated { max_depth: match max_depth { Some(d) => d, None => 0 } }
        } else {
            Completion::Complete
        };
        let r = QueryResult {
            completion,
            symbols: symbols_map,
            edges: edges_vec,
            paths,
            counts,
            diagnostics: Vec::new(),
            metrics: empty_metrics(),
        };
        proof {
            assert forall|i: int| 0 <= i < r.edges@.len() implies callee_edge_ok(#[trigger] r.edges@[i], verified_only) by {
                assert(r.edges@[i] == em.vals@[i]);
            }
            assert(edge_keys(em.vals@) =~= em.key_view());
            assert forall|k: Seq<u32>| edge_keys(r.edges@).contains(k) <==> #[trigger] kept_key(given, verified_only, k) by {
                assert(em.contains(k) <==> kept_key(given, verified_only, k));
            }
            assert forall|i: int| 0 <= i < r.edges@.len() implies head_given(#[trigger] r.edges@[i], given, verified_only) by {
                assert(r.edges@[i] == em.vals@[i]);
            }
            assert(merged_from(r.edges@, given, verified_only));
        }
        r
    }

    /// The calls of an `explain` query: within every candidate named like the
    /// caller, those spelled like the callee's name.
    #[verifier::rlimit(40)]
    fn calls_spelled_within(&self, caller: &Symbol, callee: &Symbol) -> (r: Vec<CandidateCallId>)
        requires
            self.wf(),
        ensures
            r@ == spelled_calls_of(self.discovery, matching_text(self.discovery, caller.name@), callee.name@),
    {
        let q = SymbolQuery::parse(caller.name.as_str());
        let cands = self.discovery.matching_symbols(&q);
        proof {
            assert(cands@ == matching_text(self.discovery, caller.name@));
        }
        let mut calls: Vec<CandidateCallId> = Vec::new();
        let n = cands.len();
        for i in 0..n
            invariant
                n == cands@.len(),
                self.wf(),
                calls@ == spelled_calls_of(self.discovery, cands@.take(i as int), callee.name@),
        {
            let list = self.discovery.candidate_callees(cands[i]);
            let m = list.len();
            let ghost before = calls@;
            for j in 0..m
                invariant
                    m == list@.len(),
                    self.wf(),
                    calls@ == before + spelled(self.discovery, list@.take(j as int), callee.name@),
            {
                proof {
                    assert(list@.take(j + 1).drop_last() =~= list@.take(j as int));
                    assert(list@.take(j + 1).last() == list@[j as int]);
                }
                match self.discovery.call(list[j]) {
                    Some(site) => {
                        if str_eq(site.callee_spelling.as_str(), callee.name.as_str()) {
                            calls.push(list[j]);
                        }
                    },
                    None => {},
                }
            }
            proof {
                assert(list@.take(m as int) =~= list@);
                assert(cands@.take(i + 1).drop_last() =~= cands@.take(i as int));
            }
        }
        proof {
            assert(cands@.take(n as int) =~= cands@);
        }
        calls
    }

    /// Explains the calls from one resolved symbol to another: the calls within
    /// the caller spelled like the callee are verified, and every verified edge
    /// leading to the callee is kept, in the order verified.
    pub fn explain_from(&mut self, caller_sym: Symbol, callee_sym: Symbol, diags: &mut Vec<Diagnostic>) -> (r: QueryResult)
        requires
            old(self).wf(),
        ensures
            final(self).project == old(self).project,
            log_extends(old(self).backend_calls@, final(self).backend_calls@),
            final(self).wf(),
            explain_result_ok(r, caller_sym.id, callee_sym.id),
            final(self).discovery == old(self).discovery,
            spelled_calls_of(old(self).discovery, matching_text(old(self).discovery, caller_sym.name@), callee_sym.name@).len() == 0
                ==> r.edges@.len() == 0,
            exists|bs: OrdMap<(CompilationKey, Vec<CandidateCallId>)>| {
                let seg = final(self).backend_calls@.subrange(old(self).backend_calls@.len() as int, final(self).backend_calls@.len() as int);
                &&& #[trigger] context_grouping(bs, old(self).discovery, old(self).project.compilation_db,
                    spelled_calls_of(old(self).discovery, matching_text(old(self).discovery, caller_sym.name@), callee_sym.name@))
                &&& batches_handed(seg, bs)
                &&& r.edges@ == explain_kept_all(answers_of(seg), caller_sym.id, callee_sym.id)
            },
    {
        let caller_id = caller_sym.id.clone();
        let callee_id = callee_sym.id.clone();
        let calls_to_verify = self.calls_spelled_within(&caller_sym, &callee_sym);
        let mut symbols_map: OrdMap<Symbol> = OrdMap::new();
        record_symbol(&mut symbols_map, caller_sym);
        record_symbol(&mut symbols_map, callee_sym);
        let mut batches = self.group_by_context(calls_to_verify.as_slice());
        let ghost b0 = batches;
        let ghost log0 = self.backend_calls@;
        let mut verified_edges: Vec<CallEdge> = Vec::new();
        let nb = batches.len();
        let mut bi: usize = 0;
        let ghost mut answers: Seq<Seq<CallEdge>> = Seq::empty();
        let ghost disc = self.discovery;
        proof {
            if calls_to_verify@.len() == 0 && nb > 0 {
                assert(batches.vals@[0].1@.len() > 0);
                assert(calls_to_verify@.contains(batches.vals@[0].1@[0]));
            }
        }
        while bi < nb
            invariant
                self.wf(),
                self.project == old(self).project,
                log_extends(old(self).backend_calls@, self.backend_calls@),
                self.discovery == disc,
                verified_edges@ == explain_kept_all(answers, caller_id, callee_id),
                calls_to_verify@.len() == 0 ==> nb == 0,
                nb == b0.size(),
                bi <= nb,
                forall|j: int| bi <= j < nb ==> #[trigger] batches.vals@[j] == b0.vals@[j],
                log0 == old(self).backend_calls@,
                self.backend_calls@.len() == log0.len() + bi,
                batches_upto(self.backend_calls@.subrange(log0.len() as int, self.backend_calls@.len() as int), b0, bi as int),
                answers == answers_of(self.backend_calls@.subrange(log0.len() as int, self.backend_calls@.len() as int)),
                nb == 0 ==> answers.len() == 0,
                sym_map_wf(symbols_map),
                symbols_map.contains(enc_symbol_id(caller_id)),
                symbols_map.contains(enc_symbol_id(callee_id)),
                batches.keys@.len() == nb,
                batches.vals@.len() == nb,
                forall|i: int| 0 <= i < verified_edges@.len() ==>
                    ((#[trigger] verified_edges@[i]).callee matches Some(c) && enc_symbol_id(c) == enc_symbol_id(callee_id)),
                forall|i: int| 0 <= i < verified_edges@.len() ==> enc_symbol_id((#[trigger] verified_edges@[i]).caller) == enc_symbol_id(caller_id),
            decreases nb - bi,
        {
            let (ctx_key, calls) = batches.replace_at(bi, (CompilationKey(String::new()), Vec::new()));
            proof {
                assert(ctx_key == b0.vals@[bi as int].0 && calls == b0.vals@[bi as int].1);
                assert forall|j: int| bi + 1 <= j < nb implies #[trigger] batches.vals@[j] == b0.vals@[j] by {}
            }
            bi = bi + 1;
            let batch = VerificationBatch { context: ctx_key, symbols: Vec::new(), calls };
            let ghost hb = batch;
            let ghost seg0 = self.backend_calls@.subrange(log0.len() as int, self.backend_calls@.len() as int);
            let ghost l0 = self.backend_calls@;
            let ver = self.provider.verify_calls(self.project, &self.discovery, batch);
            let ghost ans = ver;
            self.backend_calls = Ghost(self.backend_calls@.push(BackendCall::Verify { batch: hb, answer: ans }));
            proof {
                let seg1 = self.backend_calls@.subrange(log0.len() as int, self.backend_calls@.len() as int);
                assert(seg1 =~= seg0.push(BackendCall::Verify { batch: hb, answer: ans }));
                assert forall|b: int| 0 <= b < bi implies (#[trigger] seg1[b] matches BackendCall::Verify { batch, .. }
                    && batch.context == b0.vals@[b].0 && batch.calls@ == b0.vals@[b].1@ && batch.symbols@.len() == 0) by {
                    if b < bi - 1 {
                        assert(seg1[b] == seg0[b]);
                    }
                }
                assert forall|i: int| 0 <= i < log0.len() implies #[trigger] self.backend_calls@[i] == log0[i] by {
                    assert(self.backend_calls@[i] == l0[i]);
                }
                assert(forall|i: int| 0 <= i < old(self).backend_calls@.len() ==> #[trigger] self.backend_calls@[i] == l0[i]);
                assert(answers_of(seg1) =~= answers_of(seg0).push(ans.edges@));
            }
            push_issues(diags, ver.issues);
            record_verified_symbols(&mut symbols_map, ver.symbols);
            let ghost orig = ver.edges@;
            let ghost base = verified_edges@;
            let mut pending = reversed(ver.edges);
            while pending.len() > 0
                invariant
                    self.wf(),
                    self.project == old(self).project,
                    log_extends(old(self).backend_calls@, self.backend_calls@),
                    self.discovery == disc,
                    pending@.len() <= orig.len(),
                    forall|j: int| 0 <= j < pending@.len() ==> #[trigger] pending@[j] == orig[orig.len() - 1 - j],
                    verified_edges@ == base + explain_kept_of(orig.take(orig.len() - pending@.len()), caller_id, callee_id),
                    forall|i: int| 0 <= i < verified_edges@.len() ==> enc_symbol_id((#[trigger] verified_edges@[i]).caller) == enc_symbol_id(caller_id),
                    sym_map_wf(symbols_map),
                    symbols_map.contains(enc_symbol_id(caller_id)),
                    symbols_map.contains(enc_symbol_id(callee_id)),
                    batches.keys@.len() == nb,
                    batches.vals@.len() == nb,
                    forall|i: int| 0 <= i < verified_edges@.len() ==>
                        ((#[trigger] verified_edges@[i]).callee matches Some(c) && enc_symbol_id(c) == enc_symbol_id(callee_id)),
                decreases pending@.len(),
            {
                let edge = pending.pop().unwrap();
                let ghost t = orig.len() - pending@.len() - 1;
                proof {
                    assert(edge == orig[t]);
                    assert(orig.take(t + 1).drop_last() =~= orig.take(t));
                    assert(orig.take(t + 1).last() == orig[t]);
                }
                if keeps_explain_edge(&edge, &caller_id, &callee_id) {
                    record_symbols_from_edge(&mut symbols_map, &edge);
                    verified_edges.push(edge);
                }
                proof {
                    assert(verified_edges@ =~= base + explain_kept_of(orig.take(t + 1), caller_id, callee_id));
                }
            }
            proof {
                assert(orig.take(orig.len() as int) =~= orig);
                let na = answers.push(orig);
                assert(na.drop_last() =~= answers);
                answers = na;
            }
        }
        proof {
            let segf = self.backend_calls@.subrange(log0.len() as int, self.backend_calls@.len() as int);
            assert(batches_handed(segf, b0));
        }
        let paths: Vec<CallPath> = Vec::new();
        let counts = calculate_counts(&symbols_map, verified_edges.as_slice(), paths.as_slice());
        let completion = if verified_edges.len() == 0 { Completion::NoResult } else { Completion::Complete };
        QueryResult {
            completion,
            symbols: symbols_map,
            edges: verified_edges,
            paths,
            counts,
            diagnostics: Vec::new(),
            metrics: empty_metrics(),
        }
    }
}


/// A set of paths: ordered by path key, each path under its own key.
pub open spec fn path_set_wf(m: OrdMap<String>) -> bool {
    &&& m.wf()
    &&& forall|i: int| 0 <= i < m.size() ==> #[trigger] m.key_view()[i] == enc_path(m.vals@[i]@)
}

/// Adds a path to a path set unless an equal path is held.
pub fn add_path(m: &mut OrdMap<String>, f: &str)
    requires
        path_set_wf(*old(m)),
    ensures
        path_set_wf(*final(m)),
        forall|k: Seq<u32>| #[trigger] final(m).contains(k) <==> (old(m).contains(k) || k == enc_path(f@)),
{
    let ghost om = *m;
    let key = path_key(f);
    let r = m.insert_if_absent(key, f.to_string());
    proof {
        match r {
            Some(p) => {
                assert forall|i: int| 0 <= i < m.size() implies #[trigger] m.key_view()[i] == enc_path(m.vals@[i]@) by {
                    if i < p {
                        assert(m.vals@[i] == om.vals@[i] && m.key_view()[i] == om.key_view()[i]);
                    } else if i > p {
                        assert(m.vals@[i] == om.vals@[i - 1] && m.key_view()[i] == om.key_view()[i - 1]);
                    }
                }
                assert forall|k: Seq<u32>| #[trigger] m.contains(k) <==> (om.contains(k) || k == enc_path(f@)) by {
                    lemma_insert_contains(om, *m, enc_path(f@), p as int, k);
                }
            },
            None => {},
        }
    }
}

/// Whether a symbol is declared or defined in the file with path key `k`.
pub open spec fn symbol_refers(s: Symbol, k: Seq<u32>) -> bool {
    ||| (s.declaration matches Some(l) && enc_path(l.file@) == k)
    ||| (s.definition matches Some(l) && enc_path(l.file@) == k)
}

/// Whether the symbol a result holds for `id` is declared or defined in the file
/// with path key `k`.
pub open spec fn endpoint_refers(r: QueryResult, id: SymbolId, k: Seq<u32>) -> bool {
    &&& r.symbols.wf()
    &&& r.symbols.contains(enc_symbol_id(id))
    &&& symbol_refers(value_of(r.symbols, enc_symbol_id(id)), k)
}

/// Whether a semantically verified edge (one verified in some context) refers to
/// the file with path key `k`: its call site, or a declaration or definition of
/// its caller or callee, lies in it.
pub open spec fn edge_refers(r: QueryResult, e: CallEdge, k: Seq<u32>) -> bool {
    &&& e.contexts.size() > 0
    &&& {
        ||| enc_path(e.callsite.start.file@) == k
        ||| endpoint_refers(r, e.caller, k)
        ||| (e.callee matches Some(c) && endpoint_refers(r, c, k))
    }
}

/// Whether a result refers to the file with path key `k` through one of its
/// semantically verified edges.
pub open spec fn result_refers(r: QueryResult, k: Seq<u32>) -> bool {
    exists|i: int| 0 <= i < r.edges@.len() && edge_refers(r, #[trigger] r.edges@[i], k)
}

/// Whether a result does not refer to a file.
pub open spec fn unreferenced_by(r: QueryResult) -> spec_fn(String) -> bool {
    |f: String| !result_refers(r, enc_path(f@))
}

/// Adds the files a symbol is declared or defined in.
fn add_symbol_files(set: &mut OrdMap<String>, sym: &Symbol)
    requires
        path_set_wf(*old(set)),
    ensures
        path_set_wf(*final(set)),
        forall|k: Seq<u32>| #[trigger] final(set).contains(k) <==> (old(set).contains(k) || symbol_refers(*sym, k)),
{
    match &sym.declaration {
        Some(l) => add_path(set, l.file.as_str()),
        None => {},
    }
    match &sym.definition {
        Some(l) => add_path(set, l.file.as_str()),
        None => {},
    }
}

/// Adds the files the symbol a result holds for `id` is declared or defined in.
fn add_endpoint_files(set: &mut OrdMap<String>, result: &QueryResult, wf: bool, id: &SymbolId)
    requires
        path_set_wf(*old(set)),
        wf == result.symbols.wf(),
    ensures
        path_set_wf(*final(set)),
        forall|k: Seq<u32>| #[trigger] final(set).contains(k) <==> (old(set).contains(k) || endpoint_refers(*result, *id, k)),
{
    if !wf {
        return;
    }
    let key = symbol_id_key(id);
    match result.symbols.find(key.as_slice()) {
        Ok(i) => {
            proof { crate::order::lemma_pos_of(result.symbols, i as int); }
            add_symbol_files(set, result.symbols.value_at(i));
        },
        Err(_) => {},
    }
}

/// The files a result refers to, each once in path order, and the parsed files
/// it does not refer to, in their order.
#[verifier::spinoff_prover]
pub fn file_partition(result: &QueryResult, parsed: &[String]) -> (r: (Vec<String>, Vec<String>))
    ensures
        strictly_sorted(r.0@.map_values(|f: String| enc_path(f@))),
        forall|i: int| 0 <= i < r.0@.len() ==> result_refers(*result, enc_path(#[trigger] r.0@[i]@)),
        forall|k: Seq<u32>| result_refers(*result, k) ==>
            exists|i: int| 0 <= i < r.0@.len() && enc_path(#[trigger] r.0@[i]@) == k,
        r.1@ == parsed@.filter(unreferenced_by(*result)),
{
    let wf = result.symbols.is_wf();
    let mut set: OrdMap<String> = OrdMap::new();
    let ne = result.edges.len();
    let mut i: usize = 0;
    while i < ne
        invariant
            ne == result.edges@.len(),
            i <= ne,
            wf == result.symbols.wf(),
            path_set_wf(set),
            forall|k: Seq<u32>| #[trigger] set.contains(k) <==>
                exists|a: int| 0 <= a < i && edge_refers(*result, #[trigger] result.edges@[a], k),
        decreases ne - i,
    {
        let ghost before = set;
        let e = &result.edges[i];
        if e.contexts.len() > 0 {
            add_path(&mut set, e.callsite.start.file.as_str());
            add_endpoint_files(&mut set, result, wf, &e.caller);
            match &e.callee {
                Some(c) => add_endpoint_files(&mut set, result, wf, c),
                None => {},
            }
        }
        proof {
            assert forall|k: Seq<u32>| #[trigger] set.contains(k) <==>
                exists|a: int| 0 <= a < i + 1 && edge_refers(*result, #[trigger] result.edges@[a], k) by {
                if edge_refers(*result, result.edges@[i as int], k) {
                    assert(0 <= i < i + 1);
                }
                if exists|a: int| 0 <= a < i + 1 && edge_refers(*result, #[trigger] result.edges@[a], k) {
                    let a = choose|a: int| 0 <= a < i + 1 && edge_refers(*result, #[trigger] result.edges@[a], k);
                    if a < i {
                        assert(before.contains(k));
                    }
                }
            }
        }
        i = i + 1;
    }
    let np = parsed.len();
    let mut skipped: Vec<String> = Vec::new();
    let mut t: usize = 0;
    while t < np
        invariant
            np == parsed@.len(),
            t <= np,
            path_set_wf(set),
            forall|k: Seq<u32>| #[trigger] set.contains(k) <==> result_refers(*result, k),
            skipped@ == parsed@.take(t as int).filter(unreferenced_by(*result)),
        decreases np - t,
    {
        let key = path_key(parsed[t].as_str());
        let held = match set.find(key.as_slice()) {
            Ok(w) => {
                proof { assert(set.key_view()[w as int] == key@); assert(set.contains(key@)); }
                true
            },
            Err(_) => false,
        };
        if !held {
            skipped.push(parsed[t].clone());
        }
        proof {
            assert(key@ == enc_path(parsed@[t as int]@));
            assert(held == result_refers(*result, enc_path(parsed@[t as int]@)));
            assert(parsed@.take(t + 1) =~= parsed@.take(t as int).push(parsed@[t as int]));
            parsed@.take(t as int).lemma_filter_push(parsed@[t as int], unreferenced_by(*result));
        }
        t = t + 1;
    }
    proof {
        assert(parsed@.take(np as int) =~= parsed@);
    }
    let ghost sv = set;
    let verified = set.vals;
    proof {
        assert(verified@.map_values(|f: String| enc_path(f@)) =~= sv.key_view());
        assert forall|k: Seq<u32>| result_refers(*result, k) implies
            exists|i: int| 0 <= i < verified@.len() && enc_path(#[trigger] verified@[i]@) == k by {
            assert(sv.contains(k));
            let w = choose|w: int| 0 <= w < sv.key_view().len() && sv.key_view()[w] == k;
            assert(enc_path(verified@[w]@) == k);
        }
        assert forall|i: int| 0 <= i < verified@.len() implies result_refers(*result, enc_path(#[trigger] verified@[i]@)) by {
            assert(sv.key_view()[i] == enc_path(verified@[i]@));
            assert(sv.contains(enc_path(verified@[i]@)));
        }
    }
    (verified, skipped)
}


/// `a - b`, or zero when `b` exceeds `a`.
pub open spec fn sat_sub(a: int, b: int) -> int {
    if a >= b { a - b } else { 0 }
}

/// What a request's result obeys: the laws of its kind of search, for the
/// symbols its queries resolved to.
pub open spec fn request_result_ok(res: QueryResult, request: QueryRequest) -> bool {
    match request {
        QueryRequest::Trace { max_depth, verified_only, .. } =>
            exists|t: SymbolId| #[trigger] callers_result_ok(res, t, verified_only, true, max_depth),
        QueryRequest::Callers { max_depth, verified_only, .. } =>
            exists|t: SymbolId| #[trigger] callers_result_ok(res, t, verified_only, false, max_depth),
        QueryRequest::Callees { max_depth, verified_only, .. } =>
            exists|s: SymbolId| #[trigger] callees_result_ok(res, s, verified_only, max_depth),
        QueryRequest::Path { max_depth, verified_only, .. } =>
            exists|s: SymbolId, t: SymbolId| #[trigger] path_result_ok(res, s, t, verified_only, max_depth),
        QueryRequest::Explain { .. } =>
            exists|a: SymbolId, b: SymbolId| #[trigger] explain_result_ok(res, a, b),
    }
}

/// The call at position `i` of `log` resolved `q` to `s`.
pub open spec fn resolved_at(log: Seq<BackendCall>, i: int, q: SymbolQuery, s: Symbol) -> bool {
    0 <= i < log.len() && exists|idx: DiscoveryIndex| #[trigger] resolution_recorded(log[i], idx, q, Ok::<Symbol, FatalError>(s))
}

/// The request's queries were resolved, in order, by the calls that follow log
/// `a` in log `b`, to symbols with identifiers `ids`.
pub open spec fn request_endpoints(request: QueryRequest, a: Seq<BackendCall>, b: Seq<BackendCall>, ids: Seq<SymbolId>) -> bool {
    &&& ids.len() == request_queries(request).len()
    &&& forall|i: int| #![trigger ids[i]] 0 <= i < ids.len() ==> exists|s: Symbol|
        #[trigger] resolved_at(b, a.len() + i, request_queries(request)[i], s) && s.id == ids[i]
}

/// `res` is a result of the request's search between the endpoints `ids`.
pub open spec fn request_result_for(res: QueryResult, request: QueryRequest, ids: Seq<SymbolId>) -> bool {
    match request {
        QueryRequest::Trace { max_depth, verified_only, .. } => callers_result_ok(res, ids[0], verified_only, true, max_depth),
        QueryRequest::Callers { max_depth, verified_only, .. } => callers_result_ok(res, ids[0], verified_only, false, max_depth),
        QueryRequest::Callees { max_depth, verified_only, .. } => callees_result_ok(res, ids[0], verified_only, max_depth),
        QueryRequest::Path { max_depth, verified_only, .. } => path_result_ok(res, ids[0], ids[1], verified_only, max_depth),
        QueryRequest::Explain { .. } => explain_result_ok(res, ids[0], ids[1]),
    }
}

/// Resolving the `i`-th query of the request failed with `e`, after log `a`
/// with final log `b` and final index `idx`: no candidate matched it (and the
/// back end was not asked), or the recorded resolution decided on `e`.
pub open spec fn request_failed(e: FatalError, request: QueryRequest, a: Seq<BackendCall>, b: Seq<BackendCall>,
    idx: DiscoveryIndex, i: int) -> bool {
    let q = request_queries(request)[i];
    &&& 0 <= i < request_queries(request).len()
    &&& error_for(e, q)
    &&& (idx.matching_spec(q).len() == 0 && b.len() == a.len() + i)
        || (b.len() == a.len() + i + 1 && exists|d: DiscoveryIndex| #[trigger] resolution_recorded(b.last(), d, q, Err::<Symbol, FatalError>(e)))
}

impl<'a, S: SemanticProvider> QueryEngine<'a, S> {
    /// Runs a request: resolves its queries (failing when one is not found or is
    /// ambiguous), runs the search, and gathers the metrics: the translation
    /// units available, what discovery did meanwhile, the candidate calls known,
    /// the files the result refers to and the parsed files it does not. The
    /// issues the back end met become the result's diagnostics.
    #[verifier::spinoff_prover]
    #[verifier::rlimit(80)]
    pub fn execute(&mut self, request: QueryRequest) -> (r: Result<QueryResult, FatalError>)
        requires
            old(self).wf(),
        ensures
            final(self).project == old(self).project,
            log_extends(old(self).backend_calls@, final(self).backend_calls@),
            final(self).wf(),
            r matches Err(e) ==> endpoint_error(e)
                && exists|i: int| 0 <= i < request_queries(request).len() && #[trigger] error_for(e, request_queries(request)[i]),
            r matches Err(e) ==> exists|i: int| #[trigger] request_failed(e, request, old(self).backend_calls@,
                final(self).backend_calls@, final(self).discovery, i),
            r matches Ok(res) ==> {
                &&& request_result_ok(res, request)
                &&& exists|ids: Seq<SymbolId>| #[trigger] request_endpoints(request, old(self).backend_calls@, final(self).backend_calls@, ids)
                    && request_result_for(res, request, ids)
                &&& res.metrics.available_translation_units == old(self).project.compilation_db.source_file_to_contexts.vals@.len()
                &&& res.metrics.source_files_inspected == sat_sub(
                    final(self).discovery.source_files_inspected as int, old(self).discovery.source_files_inspected as int)
                &&& res.metrics.source_files_parsed_by_treesitter == sat_sub(
                    final(self).discovery.source_files@.len() as int, old(self).discovery.source_files@.len() as int)
                &&& res.metrics.discovery_time == sat_sub(
                    final(self).discovery.discovery_time as int, old(self).discovery.discovery_time as int)
                &&& res.metrics.candidate_call_sites == final(self).discovery.calls@.len()
                &&& strictly_sorted(res.metrics.verified_source_files@.map_values(|f: String| enc_path(f@)))
                &&& forall|i: int| 0 <= i < res.metrics.verified_source_files@.len() ==>
                    result_refers(res, enc_path(#[trigger] res.metrics.verified_source_files@[i]@))
                &&& forall|k: Seq<u32>| result_refers(res, k) ==>
                    exists|i: int| 0 <= i < res.metrics.verified_source_files@.len()
                        && enc_path(#[trigger] res.metrics.verified_source_files@[i]@) == k
                &&& res.metrics.skipped_source_files@ == final(self).discovery.source_files@.filter(unreferenced_by(res))
            },
    {
        let total_start = crate::clock::instant_now();
        let inspected_before = self.discovery.source_files_inspected;
        let parsed_before = self.discovery.source_files.len();
        let discovery_time_before = self.discovery.discovery_time;
        let mut metrics = empty_metrics();
        let available = self.project.compilation_db.all_source_files().len();
        let mut diags: Vec<Diagnostic> = Vec::new();
        let ghost req = request;
        let ghost l0 = self.backend_calls@;
        let ghost mut ids: Seq<SymbolId> = Seq::empty();
        let result = match request {
            QueryRequest::Trace { target, max_depth, verified_only } => {
                let ghost lb0 = self.backend_calls@;
                let t = match self.resolve_endpoint(&target, &mut diags) {
                    Ok(v) => v,
                    Err(e) => {
                        assert(error_for(e, request_queries(req)[0]));
                        assert(request_failed(e, req, l0, self.backend_calls@, self.discovery, 0));
                        return Err(e);
                    },
                };
                proof {
                    assert(resolution_recorded(self.backend_calls@[lb0.len() as int], self.discovery, request_queries(req)[0], Ok::<Symbol, FatalError>(t)));
                }
                let ghost lr0 = self.backend_calls@;
                let ghost ep0 = t;
                let ghost tid = t.id;
                let res = self.callers_from(t, max_depth, verified_only, true, &mut metrics, &mut diags);
                assert(callers_result_ok(res, tid, verified_only, true, max_depth));
                assert(request_result_for(res, req, seq![tid]));
                proof {
                    ids = seq![tid];
                    assert(self.backend_calls@[l0.len() as int] == lr0[l0.len() as int]);
                    assert(resolved_at(self.backend_calls@, l0.len() as int, request_queries(req)[0], ep0));
                    assert(ep0.id == ids[0]);
                    assert(self.backend_calls@[l0.len() as int] == lr0[l0.len() as int]);
                    assert(resolved_at(self.backend_calls@, l0.len() as int, request_queries(req)[0], ep0));
                    assert(ep0.id == ids[0]);
                    assert(request_endpoints(req, l0, self.backend_calls@, ids));
                }
                res
            },
            QueryRequest::Callers { target, max_depth, verified_only } => {
                let ghost lb0 = self.backend_calls@;
                let t = match self.resolve_endpoint(&target, &mut diags) {
                    Ok(v) => v,
                    Err(e) => {
                        assert(error_for(e, request_queries(req)[0]));
                        assert(request_failed(e, req, l0, self.backend_calls@, self.discovery, 0));
                        return Err(e);
                    },
                };
                proof {
                    assert(resolution_recorded(self.backend_calls@[lb0.len() as int], self.discovery, request_queries(req)[0], Ok::<Symbol, FatalError>(t)));
                }
                let ghost lr0 = self.backend_calls@;
                let ghost ep0 = t;
                let ghost tid = t.id;
                let res = self.callers_from(t, max_depth, verified_only, false, &mut metrics, &mut diags);
                assert(callers_result_ok(res, tid, verified_only, false, max_depth));
                assert(request_result_for(res, req, seq![tid]));
                proof {
                    ids = seq![tid];
                    assert(self.backend_calls@[l0.len() as int] == lr0[l0.len() as int]);
                    assert(resolved_at(self.backend_calls@, l0.len() as int, request_queries(req)[0], ep0));
                    assert(ep0.id == ids[0]);
                    assert(request_endpoints(req, l0, self.backend_calls@, ids));
                }
                res
            },
            QueryRequest::Callees { source, max_depth, verified_only } => {
                let ghost lb0 = self.backend_calls@;
                let s = match self.resolve_endpoint(&source, &mut diags) {
                    Ok(v) => v,
                    Err(e) => {
                        assert(error_for(e, request_queries(req)[0]));
                        assert(request_failed(e, req, l0, self.backend_calls@, self.discovery, 0));
                        return Err(e);
                    },
                };
                proof {
                    assert(resolution_recorded(self.backend_calls@[lb0.len() as int], self.discovery, request_queries(req)[0], Ok::<Symbol, FatalError>(s)));
                }
                let ghost lr0 = self.backend_calls@;
                let ghost ep0 = s;
                let ghost sid = s.id;
                let res = self.callees_from(s, max_depth, verified_only, &mut metrics, &mut diags);
                assert(callees_result_ok(res, sid, verified_only, max_depth));
                assert(request_result_for(res, req, seq![sid]));
                proof {
                    ids = seq![sid];
                    assert(self.backend_calls@[l0.len() as int] == lr0[l0.len() as int]);
                    assert(resolved_at(self.backend_calls@, l0.len() as int, request_queries(req)[0], ep0));
                    assert(ep0.id == ids[0]);
                    assert(request_endpoints(req, l0, self.backend_calls@, ids));
                }
                res
            },
            QueryRequest::Path { source, target, max_depth, verified_only } => {
                let ghost lb0 = self.backend_calls@;
                let s = match self.resolve_endpoint(&source, &mut diags) {
                    Ok(v) => v,
                    Err(e) => {
                        assert(error_for(e, request_queries(req)[0]));
                        assert(request_failed(e, req, l0, self.backend_calls@, self.discovery, 0));
                        return Err(e);
                    },
                };
                proof {
                    assert(resolution_recorded(self.backend_calls@[lb0.len() as int], self.discovery, request_queries(req)[0], Ok::<Symbol, FatalError>(s)));
                }
                let ghost lr0 = self.backend_calls@;
                let ghost ep0 = s;
                let ghost lb1 = self.backend_calls@;
                let t = match self.resolve_endpoint(&target, &mut diags) {
                    Ok(v) => v,
                    Err(e) => {
                        assert(error_for(e, request_queries(req)[1]));
                        assert(request_failed(e, req, l0, self.backend_calls@, self.discovery, 1));
                        return Err(e);
                    },
                };
                proof {
                    assert(resolution_recorded(self.backend_calls@[lb1.len() as int], self.discovery, request_queries(req)[1], Ok::<Symbol, FatalError>(t)));
                }
                let ghost lr1 = self.backend_calls@;
                let ghost ep1 = t;
                let ghost sid = s.id;
                let ghost tid = t.id;
                let res = self.path_from(s, t, max_depth, verified_only, &mut metrics, &mut diags);
                assert(path_result_ok(res, sid, tid, verified_only, max_depth));
                assert(request_result_for(res, req, seq![sid, tid]));
                proof {
                    ids = seq![sid, tid];
                    assert(self.backend_calls@[l0.len() as int] == lr0[l0.len() as int]);
                    assert(resolved_at(self.backend_calls@, l0.len() as int, request_queries(req)[0], ep0));
                    assert(ep0.id == ids[0]);
                    assert(self.backend_calls@[(l0.len() + 1) as int] == lr1[(l0.len() + 1) as int]);
                    assert(resolved_at(self.backend_calls@, (l0.len() + 1) as int, request_queries(req)[1], ep1));
                    assert(ep1.id == ids[1]);
                    assert(request_endpoints(req, l0, self.backend_calls@, ids));
                }
                res
            },
            QueryRequest::Explain { caller, callee } => {
                let ghost lb0 = self.backend_calls@;
                let a = match self.resolve_endpoint(&caller, &mut diags) {
                    Ok(v) => v,
                    Err(e) => {
                        assert(error_for(e, request_queries(req)[0]));
                        assert(request_failed(e, req, l0, self.backend_calls@, self.discovery, 0));
                        return Err(e);
                    },
                };
                proof {
                    assert(resolution_recorded(self.backend_calls@[lb0.len() as int], self.discovery, request_queries(req)[0], Ok::<Symbol, FatalError>(a)));
                }
                let ghost lr0 = self.backend_calls@;
                let ghost ep0 = a;
                let ghost lb1 = self.backend_calls@;
                let b = match self.resolve_endpoint(&callee, &mut diags) {
                    Ok(v) => v,
                    Err(e) => {
                        assert(error_for(e, request_queries(req)[1]));
                        assert(request_failed(e, req, l0, self.backend_calls@, self.discovery, 1));
                        return Err(e);
                    },
                };
                proof {
                    assert(resolution_recorded(self.backend_calls@[lb1.len() as int], self.discovery, request_queries(req)[1], Ok::<Symbol, FatalError>(b)));
                }
                let ghost lr1 = self.backend_calls@;
                let ghost ep1 = b;
                let ghost aid = a.id;
                let ghost bid = b.id;
                let res = self.explain_from(a, b, &mut diags);
                assert(explain_result_ok(res, aid, bid));
                assert(request_result_for(res, req, seq![aid, bid]));
                proof {
                    ids = seq![aid, bid];
                    assert(self.backend_calls@[l0.len() as int] == lr0[l0.len() as int]);
                    assert(resolved_at(self.backend_calls@, l0.len() as int, request_queries(req)[0], ep0));
                    assert(ep0.id == ids[0]);
                    assert(self.backend_calls@[(l0.len() + 1) as int] == lr1[(l0.len() + 1) as int]);
                    assert(resolved_at(self.backend_calls@, (l0.len() + 1) as int, request_queries(req)[1], ep1));
                    assert(ep1.id == ids[1]);
                    assert(request_endpoints(req, l0, self.backend_calls@, ids));
                }
                res
            },
        };
        assert(request_result_ok(result, req));
        metrics.available_translation_units = available;
        metrics.source_files_inspected = self.discovery.source_files_inspected.saturating_sub(inspected_before);
        metrics.source_files_parsed_by_treesitter = self.discovery.source_files.len().saturating_sub(parsed_before);
        metrics.candidate_call_sites = self.discovery.calls.len();
        metrics.discovery_time = self.discovery.discovery_time.saturating_sub(discovery_time_before);
        metrics.total_query_time = crate::clock::nanos_since(&total_start);
        let (verified_files, skipped_files) = file_partition(&result, self.discovery.source_files.as_slice());
        metrics.verified_source_files = verified_files;
        metrics.skipped_source_files = skipped_files;
        let mut final_res = result;
        final_res.metrics = metrics;
        final_res.diagnostics = diags;
        proof {
            assert(final_res.edges == result.edges && final_res.symbols == result.symbols);
            assert forall|k: Seq<u32>| result_refers(final_res, k) == result_refers(result, k) by {}
            assert(unreferenced_by(final_res) =~= unreferenced_by(result));
            match req {
                QueryRequest::Trace { max_depth, verified_only, .. } => {
                    let t = choose|t: SymbolId| #[trigger] callers_result_ok(result, t, verified_only, true, max_depth);
                    assert(callers_result_ok(final_res, t, verified_only, true, max_depth));
                },
                QueryRequest::Callers { max_depth, verified_only, .. } => {
                    let t = choose|t: SymbolId| #[trigger] callers_result_ok(result, t, verified_only, false, max_depth);
                    assert(callers_result_ok(final_res, t, verified_only, false, max_depth));
                },
                QueryRequest::Callees { max_depth, verified_only, .. } => {
                    let t = choose|t: SymbolId| #[trigger] callees_result_ok(result, t, verified_only, max_depth);
                    assert(callees_result_ok(final_res, t, verified_only, max_depth));
                },
                QueryRequest::Path { max_depth, verified_only, .. } => {
                    let (a, b) = choose|a: SymbolId, b: SymbolId| #[trigger] path_result_ok(result, a, b, verified_only, max_depth);
                    assert(path_result_ok(final_res, a, b, verified_only, max_depth));
                },
                QueryRequest::Explain { .. } => {
                    let (a, b) = choose|a: SymbolId, b: SymbolId| #[trigger] explain_result_ok(result, a, b);
                    assert(explain_result_ok(final_res, a, b));
                },
            }
            assert(request_result_ok(final_res, req));
            assert(request_result_for(result, req, ids));
            match req {
                QueryRequest::Trace { max_depth, verified_only, .. } => {
                    assert(callers_result_ok(final_res, ids[0], verified_only, true, max_depth));
                },
                QueryRequest::Callers { max_depth, verified_only, .. } => {
                    assert(callers_result_ok(final_res, ids[0], verified_only, false, max_depth));
                },
                QueryRequest::Callees { max_depth, verified_only, .. } => {
                    assert(callees_result_ok(final_res, ids[0], verified_only, max_depth));
                },
                QueryRequest::Path { max_depth, verified_only, .. } => {
                    assert(path_result_ok(final_res, ids[0], ids[1], verified_only, max_depth));
                },
                QueryRequest::Explain { .. } => {
                    assert(explain_result_ok(final_res, ids[0], ids[1]));
                },
            }
            assert(request_result_for(final_res, req, ids));
            assert(request_endpoints(req, l0, self.backend_calls@, ids));
            assert(final_res.metrics.available_translation_units == old(self).project.compilation_db.source_file_to_contexts.vals@.len());
            assert(final_res.metrics.source_files_inspected == sat_sub(
                    self.discovery.source_files_inspected as int, old(self).discovery.source_files_inspected as int));
            assert(final_res.metrics.source_files_parsed_by_treesitter == sat_sub(
                    self.discovery.source_files@.len() as int, old(self).discovery.source_files@.len() as int));
            assert(final_res.metrics.discovery_time == sat_sub(
                    self.discovery.discovery_time as int, old(self).discovery.discovery_time as int));
            assert(final_res.metrics.candidate_call_sites == self.discovery.calls@.len());
            assert(final_res.metrics.skipped_source_files@ == self.discovery.source_files@.filter(unreferenced_by(final_res)));
            let vf = final_res.metrics.verified_source_files@;
            assert(strictly_sorted(vf.map_values(|f: String| enc_path(f@))));
            assert forall|i: int| 0 <= i < vf.len() implies result_refers(final_res, enc_path(#[trigger] vf[i]@)) by {
                assert(result_refers(result, enc_path(vf[i]@)));
            }
            assert forall|k: Seq<u32>| result_refers(final_res, k) implies
                exists|i: int| 0 <= i < vf.len() && enc_path(#[trigger] vf[i]@) == k by {
                assert(result_refers(result, k));
            }
        }
        Ok(final_res)
    }
}

} // verus!
