//! Rendering a query result for people: the compact list of symbols, or, with
//! more verbosity, each relation with its endpoints, call site and evidence.
use vstd::prelude::*;
use crate::keys::{enc_symbol_id, symbol_id_key};
use crate::model::{BackendSymbolId, CallEdge, CallKind, CallPath, Completion, Confidence, QueryResult, SourceLocation,
    SourceRange, Symbol, SymbolId};
use crate::order::value_of;
use crate::project::{ProjectContext, display_path_spec};
use crate::text::{digits, format_u64, push_str};
use crate::model::{CompilationKey, QueryMetrics, VerificationEvidence};
use crate::diagnostic::{Diagnostic, join_with};
use crate::paths::{dir_of, dir_of_spec};
use crate::order::OrdMap;

verus! {

broadcast use vstd::string::group_string_axioms;

/// Output format.
#[derive(Debug, Clone, Copy, PartialEq, Eq, Structural)]
pub enum OutputFormat {
    /// Human-readable text
    Text,
    /// JSON
    Json,
    /// Mermaid diagram
    Mermaid,
    /// Graphviz DOT diagram
    Dot,
}

impl Default for OutputFormat {
    fn default() -> (r: Self)
        ensures
            r == OutputFormat::Text,
    {
        OutputFormat::Text
    }
}

/// How to render a result.
#[derive(Debug, Clone)]
pub struct RenderOptions {
    /// Output format
    pub format: OutputFormat,
    /// File the output goes to
    pub output_file: Option<String>,
    /// Detail level: 0 compact, 1 relations, 2 evidence and reports
    pub verbosity: u8,
    /// Whether to show timing and cost metrics
    pub show_metrics: bool,
    /// Whether progress is shown (does not change the result's rendering)
    pub progress: bool,
    /// Leave unresolved edges out
    pub no_unresolved: bool,
    /// Leave calls across a foreign boundary out
    pub no_foreign: bool,
}

impl RenderOptions {
    /// The default options: text, compact, nothing left out.
    pub open spec fn default_spec() -> RenderOptions {
        RenderOptions {
            format: OutputFormat::Text,
            output_file: None,
            verbosity: 0,
            show_metrics: false,
            progress: false,
            no_unresolved: false,
            no_foreign: false,
        }
    }
}

impl Default for RenderOptions {
    fn default() -> (r: Self)
        ensures
            r == RenderOptions::default_spec(),
    {
        RenderOptions {
            format: OutputFormat::Text,
            output_file: None,
            verbosity: 0,
            show_metrics: false,
            progress: false,
            no_unresolved: false,
            no_foreign: false,
        }
    }
}

/// A rendered result.
#[derive(Debug, Clone, PartialEq, Eq)]
pub struct RenderedOutput {
    /// Standard output text
    pub stdout: String,
    /// Standard error text
    pub stderr: String,
    /// Exit code
    pub exit_code: i32,
}

/// The deterministic text renderer.
#[derive(Debug, Clone, Copy, PartialEq, Eq, Structural)]
pub struct HumanRenderer;

impl HumanRenderer {
    /// A renderer.
    pub fn new() -> (r: Self)
        ensures
            r == HumanRenderer,
    {
        HumanRenderer
    }
}


/// The text of an identifier, shown when its symbol is unknown.
pub open spec fn id_text(id: SymbolId) -> Seq<char> {
    match id.backend_id {
        BackendSymbolId::ClangUsr(u) => u@,
        BackendSymbolId::ClangLocationFallback { qualified_name, .. } => qualified_name@,
        BackendSymbolId::TreeSitterLocationFallback { qualified_name, .. } => qualified_name@,
    }
}

/// The text of an identifier, shown when its symbol is unknown.
fn id_string(id: &SymbolId) -> (r: String)
    ensures
        r@ == id_text(*id),
{
    match &id.backend_id {
        BackendSymbolId::ClangUsr(u) => u.clone(),
        BackendSymbolId::ClangLocationFallback { qualified_name, .. } => qualified_name.clone(),
        BackendSymbolId::TreeSitterLocationFallback { qualified_name, .. } => qualified_name.clone(),
    }
}

/// The symbol a result holds for an identifier, when its symbol map is well
/// formed and holds one.
pub open spec fn symbol_of(r: QueryResult, id: SymbolId) -> Option<Symbol> {
    if r.symbols.wf() && r.symbols.contains(enc_symbol_id(id)) {
        Some(value_of(r.symbols, enc_symbol_id(id)))
    } else {
        None
    }
}

/// The symbol a result holds for an identifier; `wf` tells whether its map is
/// well formed.
fn find_symbol<'r>(result: &'r QueryResult, wf: bool, id: &SymbolId) -> (r: Option<&'r Symbol>)
    requires
        wf == result.symbols.wf(),
    ensures
        r == match symbol_of(*result, *id) { Some(s) => Some(&s), None => None },
{
    if !wf {
        return None;
    }
    let k = symbol_id_key(id);
    match result.symbols.find(k.as_slice()) {
        Ok(i) => {
            proof { crate::order::lemma_pos_of(result.symbols, i as int); }
            Some(result.symbols.value_at(i))
        },
        Err(_) => None,
    }
}

/// The name shown for an identifier: its symbol's display name, else its text.
pub open spec fn label(r: QueryResult, id: SymbolId) -> Seq<char> {
    match symbol_of(r, id) {
        Some(s) => s.display_name_spec(),
        None => id_text(id),
    }
}

/// Appends the name shown for an identifier.
fn push_label(out: &mut String, result: &QueryResult, wf: bool, id: &SymbolId)
    requires
        wf == result.symbols.wf(),
    ensures
        final(out)@ == old(out)@ + label(*result, *id),
{
    match find_symbol(result, wf, id) {
        Some(s) => push_str(out, s.display_name()),
        None => {
            let t = id_string(id);
            push_str(out, t.as_str());
        },
    }
}

/// A location as shown: its file relative to the root, then `:line:column`.
pub open spec fn loc_text(root: Seq<char>, l: SourceLocation) -> Seq<char> {
    display_path_spec(root, l.file@) + match l.point {
        Some(p) => ":"@ + p.text(),
        None => Seq::empty(),
    }
}

/// Appends a location as shown.
fn push_loc(out: &mut String, project: &ProjectContext, l: &SourceLocation)
    ensures
        final(out)@ == old(out)@ + loc_text(project.source_root@, *l),
{
    let f = project.display_path(l.file.as_str());
    push_str(out, f.as_str());
    match &l.point {
        Some(p) => {
            push_str(out, ":");
            let t = p.to_string();
            push_str(out, t.as_str());
        },
        None => {},
    }
}

/// A range as shown: its start, then `-line:column` of its end.
pub open spec fn range_text(root: Seq<char>, r: SourceRange) -> Seq<char> {
    loc_text(root, r.start) + match r.end {
        Some(e) => match e.point {
            Some(p) => "-"@ + p.text(),
            None => Seq::empty(),
        },
        None => Seq::empty(),
    }
}

/// Appends a range as shown.
fn push_range(out: &mut String, project: &ProjectContext, r: &SourceRange)
    ensures
        final(out)@ == old(out)@ + range_text(project.source_root@, *r),
{
    push_loc(out, project, &r.start);
    match &r.end {
        Some(e) => match &e.point {
            Some(p) => {
                push_str(out, "-");
                let t = p.to_string();
                push_str(out, t.as_str());
            },
            None => {},
        },
        None => {},
    }
}

/// Whether the options keep an edge: unresolved edges and foreign calls go when
/// asked.
pub open spec fn kept(o: RenderOptions, e: CallEdge) -> bool {
    &&& !(o.no_unresolved && e.confidence == Confidence::Unresolved)
    &&& !(o.no_foreign && e.kind == CallKind::Foreign)
}

/// The edges the options keep, in order.
pub open spec fn kept_edges(o: RenderOptions, edges: Seq<CallEdge>) -> Seq<CallEdge>
    decreases edges.len(),
{
    if edges.len() == 0 {
        Seq::empty()
    } else if kept(o, edges.last()) {
        kept_edges(o, edges.drop_last()).push(edges.last())
    } else {
        kept_edges(o, edges.drop_last())
    }
}

/// The names of identifiers, one per line.
pub open spec fn lines_of(r: QueryResult, ids: Seq<SymbolId>) -> Seq<char>
    decreases ids.len(),
{
    if ids.len() == 0 {
        Seq::empty()
    } else {
        lines_of(r, ids.drop_last()) + label(r, ids.last()) + "\n"@
    }
}

/// Appends the names of identifiers, one per line.
fn push_lines(out: &mut String, result: &QueryResult, wf: bool, ids: &[SymbolId])
    requires
        wf == result.symbols.wf(),
    ensures
        final(out)@ == old(out)@ + lines_of(*result, ids@),
{
    let ghost start = out@;
    let n = ids.len();
    let mut i: usize = 0;
    while i < n
        invariant
            n == ids@.len(),
            i <= n,
            wf == result.symbols.wf(),
            out@ == start + lines_of(*result, ids@.take(i as int)),
        decreases n - i,
    {
        push_label(out, result, wf, &ids[i]);
        push_str(out, "\n");
        proof {
            assert(ids@.take(i + 1).drop_last() =~= ids@.take(i as int));
        }
        i = i + 1;
    }
    proof {
        assert(ids@.take(n as int) =~= ids@);
    }
}

/// The paths, each as its names one per line, separated by empty lines.
pub open spec fn paths_compact(r: QueryResult, ps: Seq<CallPath>) -> Seq<char>
    decreases ps.len(),
{
    if ps.len() == 0 {
        Seq::empty()
    } else if ps.len() == 1 {
        lines_of(r, ps[0].nodes@)
    } else {
        paths_compact(r, ps.drop_last()) + "\n"@ + lines_of(r, ps.last().nodes@)
    }
}

/// Whether some identifier of `ids` has the key of `id`.
pub open spec fn listed(ids: Seq<SymbolId>, id: SymbolId) -> bool {
    exists|j: int| 0 <= j < ids.len() && enc_symbol_id(#[trigger] ids[j]) == enc_symbol_id(id)
}

/// `ids` with `id` added unless an identifier with its key is there.
pub open spec fn add_once(ids: Seq<SymbolId>, id: SymbolId) -> Seq<SymbolId> {
    if listed(ids, id) { ids } else { ids.push(id) }
}

/// The caller and callee of each kept edge with a callee, in order.
pub open spec fn kept_pairs(o: RenderOptions, edges: Seq<CallEdge>) -> Seq<(SymbolId, SymbolId)>
    decreases edges.len(),
{
    if edges.len() == 0 {
        Seq::empty()
    } else {
        let prev = kept_pairs(o, edges.drop_last());
        let e = edges.last();
        if kept(o, e) {
            match e.callee {
                Some(c) => prev.push((e.caller, c)),
                None => prev,
            }
        } else {
            prev
        }
    }
}

/// Whether `id` has the key of a caller or callee of one of the pairs.
pub open spec fn pair_endpoint(ps: Seq<(SymbolId, SymbolId)>, id: SymbolId) -> bool {
    exists|i: int| 0 <= i < ps.len()
        && (enc_symbol_id(#[trigger] ps[i].0) == enc_symbol_id(id) || enc_symbol_id(ps[i].1) == enc_symbol_id(id))
}

/// The identifiers are endpoints of the pairs, no two with one key.
pub open spec fn distinct_endpoints(ps: Seq<(SymbolId, SymbolId)>, ids: Seq<SymbolId>) -> bool {
    &&& forall|i: int, j: int| 0 <= i < j < ids.len() ==> enc_symbol_id(#[trigger] ids[i]) != enc_symbol_id(#[trigger] ids[j])
    &&& forall|i: int| 0 <= i < ids.len() ==> pair_endpoint(ps, #[trigger] ids[i])
}

/// The identifiers list every endpoint of the pairs once.
pub open spec fn endpoint_listing(ps: Seq<(SymbolId, SymbolId)>, ids: Seq<SymbolId>) -> bool {
    &&& distinct_endpoints(ps, ids)
    &&& forall|i: int| 0 <= i < ps.len() ==> listed(ids, (#[trigger] ps[i]).0) && listed(ids, ps[i].1)
}

/// The compact text: no result, or the paths, or else the endpoints of the
/// kept edges, in the order `ids` gives them, names one per line.
pub open spec fn compact_text(r: QueryResult, o: RenderOptions, ids: Seq<SymbolId>) -> Seq<char> {
    if r.completion == Completion::NoResult {
        "결과 없음 (No Result)\n"@
    } else if r.paths@.len() > 0 {
        paths_compact(r, r.paths@)
    } else {
        lines_of(r, ids)
    }
}

/// Adding an endpoint keeps the identifiers distinct endpoints.
proof fn lemma_add_endpoint(ps: Seq<(SymbolId, SymbolId)>, ids: Seq<SymbolId>, id: SymbolId)
    requires
        distinct_endpoints(ps, ids),
        pair_endpoint(ps, id),
    ensures
        distinct_endpoints(ps, add_once(ids, id)),
        forall|x: SymbolId| listed(ids, x) ==> listed(add_once(ids, id), x),
        listed(add_once(ids, id), id),
{
    let r = add_once(ids, id);
    if !listed(ids, id) {
        assert forall|i: int, j: int| 0 <= i < j < r.len() implies enc_symbol_id(#[trigger] r[i]) != enc_symbol_id(#[trigger] r[j]) by {
            if j == ids.len() {
                assert(r[i] == ids[i]);
                if enc_symbol_id(ids[i]) == enc_symbol_id(id) {
                    assert(listed(ids, id));
                }
            } else {
                assert(r[i] == ids[i] && r[j] == ids[j]);
            }
        }
        assert forall|i: int| 0 <= i < r.len() implies pair_endpoint(ps, #[trigger] r[i]) by {
            if i < ids.len() {
                assert(r[i] == ids[i]);
            }
        }
        assert forall|x: SymbolId| listed(ids, x) implies listed(r, x) by {
            let w = choose|w: int| 0 <= w < ids.len() && enc_symbol_id(#[trigger] ids[w]) == enc_symbol_id(x);
            assert(r[w] == ids[w]);
        }
        assert(r[ids.len() as int] == id);
    }
}

/// Appends the paths, each as its names one per line, separated by empty lines.
fn push_paths_compact(out: &mut String, result: &QueryResult, wf: bool)
    requires
        wf == result.symbols.wf(),
    ensures
        final(out)@ == old(out)@ + paths_compact(*result, result.paths@),
{
    let ghost start = out@;
    let ps = &result.paths;
    let n = ps.len();
    let mut i: usize = 0;
    while i < n
        invariant
            n == ps@.len(),
            *ps == result.paths,
            i <= n,
            wf == result.symbols.wf(),
            out@ == start + paths_compact(*result, ps@.take(i as int)),
        decreases n - i,
    {
        if i > 0 {
            push_str(out, "\n");
        }
        push_lines(out, result, wf, ps[i].nodes.as_slice());
        proof {
            let t = ps@.take(i + 1);
            assert(t.drop_last() =~= ps@.take(i as int));
            assert(t.last() == ps@[i as int]);
            if i == 0 {
                assert(t.len() == 1);
                assert(t[0] == ps@[0]);
            }
        }
        i = i + 1;
    }
    proof {
        assert(ps@.take(n as int) =~= ps@);
    }
}

/// `ids` with `id` added unless an identifier with its key is there.
fn add_once_exec(ids: &mut Vec<SymbolId>, id: &SymbolId)
    ensures
        final(ids)@ == add_once(old(ids)@, *id),
{
    let n = ids.len();
    let mut j: usize = 0;
    while j < n
        invariant
            n == ids@.len(),
            j <= n,
            forall|t: int| 0 <= t < j ==> enc_symbol_id(#[trigger] ids@[t]) != enc_symbol_id(*id),
        decreases n - j,
    {
        if crate::keys::same_symbol_id(&ids[j], id) {
            proof {
                assert(listed(ids@, *id)) by {
                    assert(enc_symbol_id(ids@[j as int]) == enc_symbol_id(*id));
                }
            }
            return;
        }
        j = j + 1;
    }
    ids.push(id.clone());
}

/// The caller and callee of each kept edge with a callee, in order.
fn kept_pairs_exec(edges: &[CallEdge], o: &RenderOptions) -> (r: Vec<(SymbolId, SymbolId)>)
    ensures
        r@ == kept_pairs(*o, edges@),
{
    let mut ps: Vec<(SymbolId, SymbolId)> = Vec::new();
    let n = edges.len();
    let mut i: usize = 0;
    while i < n
        invariant
            n == edges@.len(),
            i <= n,
            ps@ == kept_pairs(*o, edges@.take(i as int)),
        decreases n - i,
    {
        let e = &edges[i];
        let keep = !(o.no_unresolved && e.confidence == Confidence::Unresolved)
            && !(o.no_foreign && e.kind == CallKind::Foreign);
        proof {
            let t = edges@.take(i + 1);
            assert(t.drop_last() =~= edges@.take(i as int));
            assert(t.last() == edges@[i as int]);
        }
        if keep {
            match &e.callee {
                Some(c) => ps.push((e.caller.clone(), c.clone())),
                None => {},
            }
        }
        i = i + 1;
    }
    proof {
        assert(edges@.take(n as int) =~= edges@);
    }
    ps
}

/// Whether `c` is called only by itself among the pairs.
fn is_root(ps: &[(SymbolId, SymbolId)], c: &SymbolId) -> (r: bool)
    ensures
        r == !exists|i: int| 0 <= i < ps@.len() && enc_symbol_id((#[trigger] ps@[i]).1) == enc_symbol_id(*c)
            && enc_symbol_id(ps@[i].0) != enc_symbol_id(*c),
{
    let n = ps.len();
    let mut i: usize = 0;
    while i < n
        invariant
            n == ps@.len(),
            i <= n,
            forall|j: int| 0 <= j < i ==> !(enc_symbol_id((#[trigger] ps@[j]).1) == enc_symbol_id(*c)
                && enc_symbol_id(ps@[j].0) != enc_symbol_id(*c)),
        decreases n - i,
    {
        if crate::keys::same_symbol_id(&ps[i].1, c) && !crate::keys::same_symbol_id(&ps[i].0, c) {
            return false;
        }
        i = i + 1;
    }
    true
}

/// The endpoints of the pairs in traversal order: breadth first from the
/// callers nobody else calls (else from the first caller), each callee after
/// its caller, the pairs of one caller in order; endpoints not reached follow in
/// order of first appearance.
fn traversal_order(ps: &[(SymbolId, SymbolId)]) -> (r: Vec<SymbolId>)
    ensures
        endpoint_listing(ps@, r@),
{
    let mut order: Vec<SymbolId> = Vec::new();
    let n = ps.len();
    let mut i: usize = 0;
    while i < n
        invariant
            n == ps@.len(),
            i <= n,
            distinct_endpoints(ps@, order@),
        decreases n - i,
    {
        if is_root(ps, &ps[i].0) {
            proof {
                assert(pair_endpoint(ps@, ps@[i as int].0));
                lemma_add_endpoint(ps@, order@, ps@[i as int].0);
            }
            add_once_exec(&mut order, &ps[i].0);
        }
        i = i + 1;
    }
    if order.len() == 0 && n > 0 {
        proof {
            assert(pair_endpoint(ps@, ps@[0].0));
            lemma_add_endpoint(ps@, order@, ps@[0].0);
        }
        add_once_exec(&mut order, &ps[0].0);
    }
    let mut head: usize = 0;
    while head < order.len()
        invariant
            n == ps@.len(),
            distinct_endpoints(ps@, order@),
        decreases usize::MAX - head,
    {
        let node = order[head].clone();
        head = head + 1;
        let mut j: usize = 0;
        while j < n
            invariant
                n == ps@.len(),
                j <= n,
                head <= order@.len(),
                distinct_endpoints(ps@, order@),
            decreases n - j,
        {
            if crate::keys::same_symbol_id(&ps[j].0, &node) {
                proof {
                    assert(pair_endpoint(ps@, ps@[j as int].1));
                    lemma_add_endpoint(ps@, order@, ps@[j as int].1);
                }
                add_once_exec(&mut order, &ps[j].1);
            }
            j = j + 1;
        }
    }
    let mut k: usize = 0;
    while k < n
        invariant
            n == ps@.len(),
            k <= n,
            distinct_endpoints(ps@, order@),
            forall|a: int| 0 <= a < k ==> listed(order@, (#[trigger] ps@[a]).0) && listed(order@, ps@[a].1),
        decreases n - k,
    {
        let ghost o0 = order@;
        proof {
            assert(pair_endpoint(ps@, ps@[k as int].0));
            lemma_add_endpoint(ps@, order@, ps@[k as int].0);
        }
        add_once_exec(&mut order, &ps[k].0);
        let ghost o1 = order@;
        proof {
            assert(pair_endpoint(ps@, ps@[k as int].1));
            lemma_add_endpoint(ps@, order@, ps@[k as int].1);
        }
        add_once_exec(&mut order, &ps[k].1);
        proof {
            assert forall|a: int| 0 <= a < k + 1 implies listed(order@, (#[trigger] ps@[a]).0) && listed(order@, ps@[a].1) by {
                if a < k {
                    assert(listed(o0, ps@[a].0) && listed(o0, ps@[a].1));
                    assert(listed(o1, ps@[a].0) && listed(o1, ps@[a].1));
                }
            }
        }
        k = k + 1;
    }
    order
}

/// Appends the compact text; gives the order of the endpoints it lists when
/// the result has neither paths nor an empty outcome.
fn push_compact(out: &mut String, result: &QueryResult, wf: bool, o: &RenderOptions) -> (ids: Ghost<Seq<SymbolId>>)
    requires
        wf == result.symbols.wf(),
    ensures
        endpoint_listing(kept_pairs(*o, result.edges@), ids@),
        final(out)@ == old(out)@ + compact_text(*result, *o, ids@),
{
    let ps = kept_pairs_exec(result.edges.as_slice(), o);
    let order = traversal_order(ps.as_slice());
    if result.completion == Completion::NoResult {
        push_str(out, "결과 없음 (No Result)\n");
    } else if result.paths.len() > 0 {
        push_paths_compact(out, result, wf);
    } else {
        push_lines(out, result, wf, order.as_slice());
    }
    Ghost(order@)
}

/// An optional text, or `-`.
pub open spec fn opt_or_dash(o: Option<String>) -> Seq<char> {
    match o {
        Some(x) => x@,
        None => "-"@,
    }
}

/// Appends an optional text, or `-`.
fn push_opt_or_dash(out: &mut String, o: &Option<String>)
    ensures
        final(out)@ == old(out)@ + opt_or_dash(*o),
{
    match o {
        Some(x) => push_str(out, x.as_str()),
        None => push_str(out, "-"),
    }
}

/// The directory a symbol is declared in, relative to the root (`.` for the
/// root itself, `-` when the declaration is unknown).
pub open spec fn dir_text(root: Seq<char>, s: Symbol) -> Seq<char> {
    match s.declaration {
        Some(l) => {
            let d = dir_of_spec(display_path_spec(root, l.file@));
            if d.len() == 0 { "."@ } else { d }
        },
        None => "-"@,
    }
}

/// Appends the directory a symbol is declared in.
fn push_dir(out: &mut String, project: &ProjectContext, s: &Symbol)
    ensures
        final(out)@ == old(out)@ + dir_text(project.source_root@, *s),
{
    match &s.declaration {
        Some(l) => {
            let shown = project.display_path(l.file.as_str());
            let d = dir_of(shown.as_str());
            if d.as_str().unicode_len() == 0 {
                push_str(out, ".");
            } else {
                push_str(out, d.as_str());
            }
        },
        None => push_str(out, "-"),
    }
}

/// A relation endpoint: directory, full symbol, namespace, class and function,
/// one per line; only the identifier's text when its symbol is unknown.
pub open spec fn symbol_block(root: Seq<char>, r: QueryResult, id: SymbolId) -> Seq<char> {
    match symbol_of(r, id) {
        Some(s) => "    Directory : "@ + dir_text(root, s) + "\n"@
            + "    FullSymbol: "@ + s.display_name_spec() + "\n"@
            + "    Namespace : "@ + opt_or_dash(s.namespace) + "\n"@
            + "    Class     : "@ + opt_or_dash(s.class_name) + "\n"@
            + "    Function  : "@ + s.name@ + "\n"@,
        None => "    FullSymbol: "@ + id_text(id) + "\n"@,
    }
}

/// A relation endpoint.
fn symbol_block_string(project: &ProjectContext, result: &QueryResult, wf: bool, id: &SymbolId) -> (r: String)
    requires
        wf == result.symbols.wf(),
    ensures
        r@ == symbol_block(project.source_root@, *result, *id),
{
    match find_symbol(result, wf, id) {
        Some(s) => {
            let mut b = "    Directory : ".to_string();
            push_dir(&mut b, project, s);
            push_str(&mut b, "\n");
            push_str(&mut b, "    FullSymbol: ");
            push_str(&mut b, s.display_name());
            push_str(&mut b, "\n");
            push_str(&mut b, "    Namespace : ");
            push_opt_or_dash(&mut b, &s.namespace);
            push_str(&mut b, "\n");
            push_str(&mut b, "    Class     : ");
            push_opt_or_dash(&mut b, &s.class_name);
            push_str(&mut b, "\n");
            push_str(&mut b, "    Function  : ");
            push_str(&mut b, s.name.as_str());
            push_str(&mut b, "\n");
            b
        },
        None => {
            let mut b = "    FullSymbol: ".to_string();
            let t = id_string(id);
            push_str(&mut b, t.as_str());
            push_str(&mut b, "\n");
            b
        },
    }
}

/// The expression line of an evidence, when it has an expression.
pub open spec fn expression_line(ev: VerificationEvidence) -> Seq<char> {
    match ev.expression_text {
        Some(x) => "    표현식: `"@ + x@ + "`\n"@,
        None => Seq::empty(),
    }
}

/// The spelling line of an evidence, when it has a spelling location.
pub open spec fn spelling_line(root: Seq<char>, ev: VerificationEvidence) -> Seq<char> {
    match ev.spelling_location {
        Some(l) => "    Spelling: "@ + loc_text(root, l) + "\n"@,
        None => Seq::empty(),
    }
}

/// The virtual dispatch line of an evidence, when dispatch is virtual.
pub open spec fn virtual_line(ev: VerificationEvidence) -> Seq<char> {
    if ev.is_virtual { "    가상 함수 디스패치(Virtual Dispatch)\n"@ } else { Seq::empty() }
}

/// The evidence of one context: the expression, the reason and the context,
/// the spelling location, and whether dispatch is virtual.
pub open spec fn evidence_text(root: Seq<char>, ctx: CompilationKey, ev: VerificationEvidence) -> Seq<char> {
    expression_line(ev) + "    사유: "@ + ev.reason.text() + ", 컨텍스트: "@ + ctx.0@ + "\n"@
        + spelling_line(root, ev) + virtual_line(ev)
}

/// The evidence of each context, in order.
pub open spec fn evidence_list(root: Seq<char>, evs: Seq<(CompilationKey, VerificationEvidence)>) -> Seq<char>
    decreases evs.len(),
{
    if evs.len() == 0 {
        Seq::empty()
    } else {
        evidence_list(root, evs.drop_last()) + evidence_text(root, evs.last().0, evs.last().1)
    }
}

/// The evidence of one context.
fn evidence_string(project: &ProjectContext, ctx: &CompilationKey, ev: &VerificationEvidence) -> (r: String)
    ensures
        r@ == evidence_text(project.source_root@, *ctx, *ev),
{
    let mut b = match &ev.expression_text {
        Some(x) => {
            let mut e = "    표현식: `".to_string();
            push_str(&mut e, x.as_str());
            push_str(&mut e, "`\n");
            e
        },
        None => String::new(),
    };
    push_str(&mut b, "    사유: ");
    let reason = ev.reason.name();
    push_str(&mut b, reason.as_str());
    push_str(&mut b, ", 컨텍스트: ");
    push_str(&mut b, ctx.0.as_str());
    push_str(&mut b, "\n");
    let sp = match &ev.spelling_location {
        Some(l) => {
            let mut e = "    Spelling: ".to_string();
            push_loc(&mut e, project, l);
            push_str(&mut e, "\n");
            e
        },
        None => String::new(),
    };
    push_str(&mut b, sp.as_str());
    let vl = if ev.is_virtual { "    가상 함수 디스패치(Virtual Dispatch)\n".to_string() } else { String::new() };
    push_str(&mut b, vl.as_str());
    b
}

/// The evidence of each context.
fn evidence_list_string(project: &ProjectContext, evs: &[(CompilationKey, VerificationEvidence)]) -> (r: String)
    ensures
        r@ == evidence_list(project.source_root@, evs@),
{
    let mut acc = String::new();
    let n = evs.len();
    let mut i: usize = 0;
    while i < n
        invariant
            n == evs@.len(),
            i <= n,
            acc@ == evidence_list(project.source_root@, evs@.take(i as int)),
        decreases n - i,
    {
        let piece = evidence_string(project, &evs[i].0, &evs[i].1);
        push_str(&mut acc, piece.as_str());
        proof {
            let t = evs@.take(i + 1);
            assert(t.drop_last() =~= evs@.take(i as int));
            assert(t.last() == evs@[i as int]);
        }
        i = i + 1;
    }
    proof {
        assert(evs@.take(n as int) =~= evs@);
    }
    acc
}

/// The context keys, joined with `, `.
pub open spec fn contexts_text(ks: Seq<CompilationKey>) -> Seq<char> {
    join_with(ks.map_values(|k: CompilationKey| k.0@), ", "@)
}

/// The context keys, joined with `, `.
fn contexts_string(ks: &[CompilationKey]) -> (r: String)
    ensures
        r@ == contexts_text(ks@),
{
    let mut acc = String::new();
    let n = ks.len();
    let mut i: usize = 0;
    while i < n
        invariant
            n == ks@.len(),
            i <= n,
            acc@ == contexts_text(ks@.take(i as int)),
        decreases n - i,
    {
        let ghost prev = ks@.take(i as int).map_values(|k: CompilationKey| k.0@);
        if i > 0 {
            push_str(&mut acc, ", ");
        }
        push_str(&mut acc, ks[i].0.as_str());
        proof {
            let next = ks@.take(i + 1).map_values(|k: CompilationKey| k.0@);
            assert(next.drop_last() =~= prev);
            assert(next.last() == ks@[i as int].0@);
            if i == 0 {
                assert(prev.len() == 0);
                assert(join_with(next, ", "@) == next[0]);
                assert(acc@ =~= next[0]);
            }
        }
        i = i + 1;
    }
    proof {
        assert(ks@.take(n as int) =~= ks@);
    }
    acc
}

/// The callee shown in a relation: its name, or `<unresolved>`.
pub open spec fn callee_label(r: QueryResult, e: CallEdge) -> Seq<char> {
    match e.callee {
        Some(c) => label(r, c),
        None => "<unresolved>"@,
    }
}

/// The callee endpoint of a relation, when it has a callee.
pub open spec fn callee_block(root: Seq<char>, r: QueryResult, e: CallEdge) -> Seq<char> {
    match e.callee {
        Some(c) => "  Callee\n"@ + symbol_block(root, r, c),
        None => Seq::empty(),
    }
}

/// The contexts and evidence of a relation, at verbosity 2 and above.
pub open spec fn relation_evidence(root: Seq<char>, verbosity: u8, e: CallEdge) -> Seq<char> {
    if verbosity >= 2 {
        "  Contexts  : "@ + contexts_text(e.contexts.vals@) + "\n"@ + "  Evidence\n"@
            + evidence_list(root, e.evidence_by_context.vals@)
    } else {
        Seq::empty()
    }
}

/// Relation number `n`: its header, its endpoints, its call site and kind, and
/// at verbosity 2 its contexts and evidence.
pub open spec fn relation_text(root: Seq<char>, r: QueryResult, verbosity: u8, n: nat, e: CallEdge) -> Seq<char> {
    "Relation #"@ + digits(n, 10) + ": "@ + label(r, e.caller) + " -> "@ + callee_label(r, e)
        + " ["@ + e.confidence.text() + "]\n"@
        + "  Caller\n"@ + symbol_block(root, r, e.caller)
        + callee_block(root, r, e)
        + "  Callsite  : "@ + range_text(root, e.callsite) + " ("@ + e.kind.text() + ")\n"@
        + relation_evidence(root, verbosity, e)
}

/// Relation number `n`.
fn relation_string(project: &ProjectContext, result: &QueryResult, wf: bool, verbosity: u8, n: u64, e: &CallEdge) -> (r: String)
    requires
        wf == result.symbols.wf(),
    ensures
        r@ == relation_text(project.source_root@, *result, verbosity, n as nat, *e),
{
    let mut b = "Relation #".to_string();
    let num = format_u64(n, 10);
    push_str(&mut b, num.as_str());
    push_str(&mut b, ": ");
    push_label(&mut b, result, wf, &e.caller);
    push_str(&mut b, " -> ");
    let cl = match &e.callee {
        Some(c) => {
            let mut t = String::new();
            push_label(&mut t, result, wf, c);
            assert(t@ =~= label(*result, *c));
            t
        },
        None => "<unresolved>".to_string(),
    };
    push_str(&mut b, cl.as_str());
    push_str(&mut b, " [");
    let conf = e.confidence.to_string();
    push_str(&mut b, conf.as_str());
    push_str(&mut b, "]\n");
    push_str(&mut b, "  Caller\n");
    let caller_block = symbol_block_string(project, result, wf, &e.caller);
    push_str(&mut b, caller_block.as_str());
    let cb = match &e.callee {
        Some(c) => {
            let mut t = "  Callee\n".to_string();
            let blk = symbol_block_string(project, result, wf, c);
            push_str(&mut t, blk.as_str());
            t
        },
        None => String::new(),
    };
    push_str(&mut b, cb.as_str());
    push_str(&mut b, "  Callsite  : ");
    push_range(&mut b, project, &e.callsite);
    push_str(&mut b, " (");
    let kind = e.kind.to_string();
    push_str(&mut b, kind.as_str());
    push_str(&mut b, ")\n");
    let ev = if verbosity >= 2 {
        let mut t = "  Contexts  : ".to_string();
        let cs = contexts_string(e.contexts.vals.as_slice());
        push_str(&mut t, cs.as_str());
        push_str(&mut t, "\n");
        push_str(&mut t, "  Evidence\n");
        let el = evidence_list_string(project, e.evidence_by_context.vals.as_slice());
        push_str(&mut t, el.as_str());
        t
    } else {
        String::new()
    };
    push_str(&mut b, ev.as_str());
    b
}

/// The relations, numbered from 1.
pub open spec fn relations_text(root: Seq<char>, r: QueryResult, verbosity: u8, es: Seq<CallEdge>) -> Seq<char>
    decreases es.len(),
{
    if es.len() == 0 {
        Seq::empty()
    } else {
        relations_text(root, r, verbosity, es.drop_last()) + relation_text(root, r, verbosity, es.len(), es.last())
    }
}

/// The relations of the kept edges, numbered from 1.
fn relations_string(project: &ProjectContext, result: &QueryResult, wf: bool, o: &RenderOptions) -> (r: (String, usize))
    requires
        wf == result.symbols.wf(),
    ensures
        r.0@ == relations_text(project.source_root@, *result, o.verbosity, kept_edges(*o, result.edges@)),
        r.1 == kept_edges(*o, result.edges@).len(),
{
    let edges = &result.edges;
    let mut acc = String::new();
    let n = edges.len();
    let mut num: usize = 0;
    let mut i: usize = 0;
    while i < n
        invariant
            n == edges@.len(),
            *edges == result.edges,
            i <= n,
            wf == result.symbols.wf(),
            num == kept_edges(*o, edges@.take(i as int)).len(),
            num <= i,
            acc@ == relations_text(project.source_root@, *result, o.verbosity, kept_edges(*o, edges@.take(i as int))),
        decreases n - i,
    {
        let e = &edges[i];
        let keep = !(o.no_unresolved && e.confidence == Confidence::Unresolved)
            && !(o.no_foreign && e.kind == CallKind::Foreign);
        proof {
            let t = edges@.take(i + 1);
            assert(t.drop_last() =~= edges@.take(i as int));
            assert(t.last() == edges@[i as int]);
        }
        if keep {
            let piece = relation_string(project, result, wf, o.verbosity, (num + 1) as u64, e);
            push_str(&mut acc, piece.as_str());
            proof {
                let k0 = kept_edges(*o, edges@.take(i as int));
                let k1 = k0.push(edges@[i as int]);
                assert(kept_edges(*o, edges@.take(i + 1)) == k1);
                assert(k1.drop_last() =~= k0);
                assert(k1.last() == edges@[i as int]);
            }
            num = num + 1;
        }
        i = i + 1;
    }
    proof {
        assert(edges@.take(n as int) =~= edges@);
    }
    (acc, num)
}

/// The first edge with identifier `id`.
pub open spec fn first_edge(es: Seq<CallEdge>, id: crate::model::CallEdgeId) -> Option<CallEdge>
    decreases es.len(),
{
    if es.len() == 0 {
        None
    } else if es[0].id == id {
        Some(es[0])
    } else {
        first_edge(es.drop_first(), id)
    }
}

/// The first edge with identifier `id`.
fn find_edge<'r>(es: &'r [CallEdge], id: crate::model::CallEdgeId) -> (r: Option<&'r CallEdge>)
    ensures
        r == match first_edge(es@, id) { Some(e) => Some(&e), None => None },
{
    let n = es.len();
    let mut i: usize = 0;
    assert(es@.skip(0) =~= es@);
    while i < n
        invariant
            n == es@.len(),
            i <= n,
            first_edge(es@, id) == first_edge(es@.skip(i as int), id),
        decreases n - i,
    {
        proof {
            assert(es@.skip(i as int).drop_first() =~= es@.skip(i + 1));
            assert(es@.skip(i as int)[0] == es@[i as int]);
        }
        if es[i].id == id {
            return Some(&es[i]);
        }
        i = i + 1;
    }
    proof {
        assert(es@.skip(n as int).len() == 0);
    }
    None
}

/// The declaration shown after a path node, when its symbol is known and
/// declared.
pub open spec fn decl_suffix(root: Seq<char>, r: QueryResult, id: SymbolId) -> Seq<char> {
    match symbol_of(r, id) {
        Some(s) => match s.declaration {
            Some(l) => " ("@ + loc_text(root, l) + ")"@,
            None => Seq::empty(),
        },
        None => Seq::empty(),
    }
}

/// The step after node `i` of a path: the confidence, kind and call site of the
/// first edge with the step's identifier.
pub open spec fn hop_line(root: Seq<char>, r: QueryResult, id: crate::model::CallEdgeId) -> Seq<char> {
    match first_edge(r.edges@, id) {
        Some(e) => "      ↓ ["@ + e.confidence.text() + "] ("@ + e.kind.text() + ") at "@ + range_text(root, e.callsite) + "\n"@,
        None => "      ↓ [call]\n"@,
    }
}

/// The first `k` nodes of a path, numbered from 0, each followed by its step.
pub open spec fn path_body(root: Seq<char>, r: QueryResult, p: CallPath, k: nat) -> Seq<char>
    decreases k,
{
    if k == 0 {
        Seq::empty()
    } else {
        path_body(root, r, p, (k - 1) as nat) + node_text(root, r, p, (k - 1) as nat)
    }
}

/// Node `i` of a path, numbered, with its declaration, followed by its step.
pub open spec fn node_text(root: Seq<char>, r: QueryResult, p: CallPath, i: nat) -> Seq<char> {
    "  ["@ + digits(i, 10) + "] "@ + label(r, p.nodes@[i as int])
        + decl_suffix(root, r, p.nodes@[i as int]) + "\n"@
        + (if i < p.edges@.len() { hop_line(root, r, p.edges@[i as int]) } else { Seq::empty() })
}

/// A path's nodes and steps.
fn path_body_string(project: &ProjectContext, result: &QueryResult, wf: bool, p: &CallPath) -> (r: String)
    requires
        wf == result.symbols.wf(),
    ensures
        r@ == path_body(project.source_root@, *result, *p, p.nodes@.len()),
{
    let mut acc = String::new();
    let n = p.nodes.len();
    let mut i: usize = 0;
    while i < n
        invariant
            n == p.nodes@.len(),
            i <= n,
            wf == result.symbols.wf(),
            acc@ == path_body(project.source_root@, *result, *p, i as nat),
        decreases n - i,
    {
        let mut line = "  [".to_string();
        let num = format_u64(i as u64, 10);
        push_str(&mut line, num.as_str());
        push_str(&mut line, "] ");
        push_label(&mut line, result, wf, &p.nodes[i]);
        let suffix = match find_symbol(result, wf, &p.nodes[i]) {
            Some(s) => match &s.declaration {
                Some(l) => {
                    let mut t = " (".to_string();
                    push_loc(&mut t, project, l);
                    push_str(&mut t, ")");
                    t
                },
                None => String::new(),
            },
            None => String::new(),
        };
        push_str(&mut line, suffix.as_str());
        push_str(&mut line, "\n");
        let hop = if i < p.edges.len() {
            match find_edge(result.edges.as_slice(), p.edges[i]) {
                Some(e) => {
                    let mut t = "      ↓ [".to_string();
                    let conf = e.confidence.to_string();
                    push_str(&mut t, conf.as_str());
                    push_str(&mut t, "] (");
                    let kind = e.kind.to_string();
                    push_str(&mut t, kind.as_str());
                    push_str(&mut t, ") at ");
                    push_range(&mut t, project, &e.callsite);
                    push_str(&mut t, "\n");
                    t
                },
                None => "      ↓ [call]\n".to_string(),
            }
        } else {
            String::new()
        };
        push_str(&mut line, hop.as_str());
        push_str(&mut acc, line.as_str());
        i = i + 1;
    }
    acc
}

/// Path number `n`: its header, then its nodes and steps.
pub open spec fn path_entry(root: Seq<char>, r: QueryResult, n: nat, p: CallPath) -> Seq<char> {
    "경로 #"@ + digits(n, 10) + ":\n"@ + path_body(root, r, p, p.nodes@.len())
}

/// The paths, numbered from 1.
pub open spec fn paths_detail(root: Seq<char>, r: QueryResult, ps: Seq<CallPath>) -> Seq<char>
    decreases ps.len(),
{
    if ps.len() == 0 {
        Seq::empty()
    } else {
        paths_detail(root, r, ps.drop_last()) + path_entry(root, r, ps.len(), ps.last())
    }
}

/// The path section: present when the result has paths.
pub open spec fn paths_block(root: Seq<char>, r: QueryResult) -> Seq<char> {
    if r.paths@.len() == 0 {
        Seq::empty()
    } else {
        "=== 호출 경로 (Call Path) ===\n"@ + paths_detail(root, r, r.paths@)
    }
}

/// The path section.
fn paths_block_string(project: &ProjectContext, result: &QueryResult, wf: bool) -> (r: String)
    requires
        wf == result.symbols.wf(),
    ensures
        r@ == paths_block(project.source_root@, *result),
{
    let ps = &result.paths;
    if ps.len() == 0 {
        return String::new();
    }
    let mut acc = String::new();
    let n = ps.len();
    let mut i: usize = 0;
    while i < n
        invariant
            n == ps@.len(),
            *ps == result.paths,
            i <= n,
            wf == result.symbols.wf(),
            acc@ == paths_detail(project.source_root@, *result, ps@.take(i as int)),
        decreases n - i,
    {
        let mut entry = "경로 #".to_string();
        let num = format_u64((i + 1) as u64, 10);
        push_str(&mut entry, num.as_str());
        push_str(&mut entry, ":\n");
        let body = path_body_string(project, result, wf, &ps[i]);
        push_str(&mut entry, body.as_str());
        push_str(&mut acc, entry.as_str());
        proof {
            let t = ps@.take(i + 1);
            assert(t.drop_last() =~= ps@.take(i as int));
            assert(t.last() == ps@[i as int]);
        }
        i = i + 1;
    }
    proof {
        assert(ps@.take(n as int) =~= ps@);
    }
    let mut b = "=== 호출 경로 (Call Path) ===\n".to_string();
    push_str(&mut b, acc.as_str());
    b
}

/// The relation section: present when some edge is kept.
pub open spec fn relations_block(root: Seq<char>, r: QueryResult, o: RenderOptions) -> Seq<char> {
    if kept_edges(o, r.edges@).len() == 0 {
        Seq::empty()
    } else {
        "=== 호출 관계 (Call Edges) ===\n"@ + relations_text(root, r, o.verbosity, kept_edges(o, r.edges@))
    }
}

/// The line telling how the search completed.
pub open spec fn status_text(c: Completion) -> Seq<char> {
    match c {
        Completion::Complete => "상태: 분석 완료 (Complete)\n"@,
        Completion::NoResult => "상태: 결과 없음 (No Result)\n"@,
        Completion::Truncated { max_depth } => "상태: 최대 깊이 도달로 잘림 (Truncated at depth "@ + digits(max_depth as nat, 10) + ")\n"@,
        Completion::Partial => "상태: 부분 완료 (Partial)\n"@,
    }
}

/// The summary: the completion and the counts.
pub open spec fn summary_text(r: QueryResult) -> Seq<char> {
    "\n--- 분석 결과 요약 ---\n"@ + status_text(r.completion)
        + "통계: 총 심볼 "@ + digits(r.counts.total_symbols as nat, 10)
        + "개, 확정 엣지(CONFIRMED) "@ + digits(r.counts.confirmed_edges as nat, 10)
        + "개, 가능 엣지(POSSIBLE) "@ + digits(r.counts.possible_edges as nat, 10)
        + "개, 미해결 엣지(UNRESOLVED) "@ + digits(r.counts.unresolved_edges as nat, 10) + "개\n"@
}

/// The summary.
fn summary_string(result: &QueryResult) -> (r: String)
    ensures
        r@ == summary_text(*result),
{
    let mut b = "\n--- 분석 결과 요약 ---\n".to_string();
    let status = match result.completion {
        Completion::Complete => "상태: 분석 완료 (Complete)\n".to_string(),
        Completion::NoResult => "상태: 결과 없음 (No Result)\n".to_string(),
        Completion::Truncated { max_depth } => {
            let mut t = "상태: 최대 깊이 도달로 잘림 (Truncated at depth ".to_string();
            let d = format_u64(max_depth as u64, 10);
            push_str(&mut t, d.as_str());
            push_str(&mut t, ")\n");
            t
        },
        Completion::Partial => "상태: 부분 완료 (Partial)\n".to_string(),
    };
    push_str(&mut b, status.as_str());
    push_str(&mut b, "통계: 총 심볼 ");
    let t = format_u64(result.counts.total_symbols as u64, 10);
    push_str(&mut b, t.as_str());
    push_str(&mut b, "개, 확정 엣지(CONFIRMED) ");
    let c = format_u64(result.counts.confirmed_edges as u64, 10);
    push_str(&mut b, c.as_str());
    push_str(&mut b, "개, 가능 엣지(POSSIBLE) ");
    let p = format_u64(result.counts.possible_edges as u64, 10);
    push_str(&mut b, p.as_str());
    push_str(&mut b, "개, 미해결 엣지(UNRESOLVED) ");
    let u = format_u64(result.counts.unresolved_edges as u64, 10);
    push_str(&mut b, u.as_str());
    push_str(&mut b, "개\n");
    b
}

/// One file line of the translation unit report.
pub open spec fn file_line(root: Seq<char>, prefix: Seq<char>, f: String) -> Seq<char> {
    prefix + display_path_spec(root, f@) + "\n"@
}

/// The file lines of the translation unit report.
pub open spec fn file_lines(root: Seq<char>, prefix: Seq<char>, fs: Seq<String>) -> Seq<char>
    decreases fs.len(),
{
    if fs.len() == 0 {
        Seq::empty()
    } else {
        file_lines(root, prefix, fs.drop_last()) + file_line(root, prefix, fs.last())
    }
}

/// The file lines of the translation unit report.
fn file_lines_string(project: &ProjectContext, prefix: &str, fs: &[String]) -> (r: String)
    ensures
        r@ == file_lines(project.source_root@, prefix@, fs@),
{
    let mut acc = String::new();
    let n = fs.len();
    let mut i: usize = 0;
    while i < n
        invariant
            n == fs@.len(),
            i <= n,
            acc@ == file_lines(project.source_root@, prefix@, fs@.take(i as int)),
        decreases n - i,
    {
        let mut line = prefix.to_string();
        let shown = project.display_path(fs[i].as_str());
        push_str(&mut line, shown.as_str());
        push_str(&mut line, "\n");
        push_str(&mut acc, line.as_str());
        proof {
            let t = fs@.take(i + 1);
            assert(t.drop_last() =~= fs@.take(i as int));
            assert(t.last() == fs@[i as int]);
        }
        i = i + 1;
    }
    proof {
        assert(fs@.take(n as int) =~= fs@);
    }
    acc
}

/// The translation unit report: the files semantic results refer to, and the
/// parsed files they do not.
pub open spec fn tu_report(root: Seq<char>, m: QueryMetrics) -> Seq<char> {
    "\n[상세 번역 단위(TU) 리포트]\n"@
        + "검증된 파일: "@ + digits(m.verified_source_files@.len(), 10) + "개\n"@
        + file_lines(root, "  + "@, m.verified_source_files@)
        + "스킵된 파일: "@ + digits(m.skipped_source_files@.len(), 10) + "개\n"@
        + file_lines(root, "  - "@, m.skipped_source_files@)
}

/// The translation unit report.
fn tu_report_string(project: &ProjectContext, m: &QueryMetrics) -> (r: String)
    ensures
        r@ == tu_report(project.source_root@, *m),
{
    let mut b = "\n[상세 번역 단위(TU) 리포트]\n".to_string();
    push_str(&mut b, "검증된 파일: ");
    let a = format_u64(m.verified_source_files.len() as u64, 10);
    push_str(&mut b, a.as_str());
    push_str(&mut b, "개\n");
    let v = file_lines_string(project, "  + ", m.verified_source_files.as_slice());
    push_str(&mut b, v.as_str());
    push_str(&mut b, "스킵된 파일: ");
    let c = format_u64(m.skipped_source_files.len() as u64, 10);
    push_str(&mut b, c.as_str());
    push_str(&mut b, "개\n");
    let k = file_lines_string(project, "  - ", m.skipped_source_files.as_slice());
    push_str(&mut b, k.as_str());
    b
}

/// The cost metrics, one per line.
pub open spec fn metrics_text(m: QueryMetrics) -> Seq<char> {
    "\n[성능 및 비용 지표]\n"@
        + "검사한 소스 파일: "@ + digits(m.source_files_inspected as nat, 10) + "\n"@
        + "Tree-sitter 파싱 파일: "@ + digits(m.source_files_parsed_by_treesitter as nat, 10) + "\n"@
        + "후보 호출 지점: "@ + digits(m.candidate_call_sites as nat, 10) + "\n"@
        + "사용 가능한 번역 단위: "@ + digits(m.available_translation_units as nat, 10) + "\n"@
        + "검증한 번역 단위: "@ + digits(m.verified_translation_units as nat, 10) + "\n"@
        + "시맨틱 검증 후보: "@ + digits(m.semantic_candidates_verified as nat, 10) + "\n"@
        + "탐색 시간(ns): "@ + digits(m.discovery_time as nat, 10) + "\n"@
        + "검증 시간(ns): "@ + digits(m.verification_time as nat, 10) + "\n"@
        + "전체 쿼리 시간(ns): "@ + digits(m.total_query_time as nat, 10) + "\n"@
}

/// The cost metrics.
fn metrics_string(m: &QueryMetrics) -> (r: String)
    ensures
        r@ == metrics_text(*m),
{
    let mut b = "\n[성능 및 비용 지표]\n".to_string();
    push_str(&mut b, "검사한 소스 파일: ");
    let x = format_u64(m.source_files_inspected as u64, 10);
    push_str(&mut b, x.as_str());
    push_str(&mut b, "\n");
    push_str(&mut b, "Tree-sitter 파싱 파일: ");
    let x = format_u64(m.source_files_parsed_by_treesitter as u64, 10);
    push_str(&mut b, x.as_str());
    push_str(&mut b, "\n");
    push_str(&mut b, "후보 호출 지점: ");
    let x = format_u64(m.candidate_call_sites as u64, 10);
    push_str(&mut b, x.as_str());
    push_str(&mut b, "\n");
    push_str(&mut b, "사용 가능한 번역 단위: ");
    let x = format_u64(m.available_translation_units as u64, 10);
    push_str(&mut b, x.as_str());
    push_str(&mut b, "\n");
    push_str(&mut b, "검증한 번역 단위: ");
    let x = format_u64(m.verified_translation_units as u64, 10);
    push_str(&mut b, x.as_str());
    push_str(&mut b, "\n");
    push_str(&mut b, "시맨틱 검증 후보: ");
    let x = format_u64(m.semantic_candidates_verified as u64, 10);
    push_str(&mut b, x.as_str());
    push_str(&mut b, "\n");
    push_str(&mut b, "탐색 시간(ns): ");
    let x = format_u64(m.discovery_time, 10);
    push_str(&mut b, x.as_str());
    push_str(&mut b, "\n");
    push_str(&mut b, "검증 시간(ns): ");
    let x = format_u64(m.verification_time, 10);
    push_str(&mut b, x.as_str());
    push_str(&mut b, "\n");
    push_str(&mut b, "전체 쿼리 시간(ns): ");
    let x = format_u64(m.total_query_time, 10);
    push_str(&mut b, x.as_str());
    push_str(&mut b, "\n");
    b
}

/// The detailed text: paths, relations, summary, and at verbosity 2 the
/// translation unit report.
pub open spec fn detailed_text(root: Seq<char>, r: QueryResult, o: RenderOptions) -> Seq<char> {
    paths_block(root, r) + relations_block(root, r, o) + summary_text(r)
        + (if o.verbosity >= 2 { tu_report(root, r.metrics) } else { Seq::empty() })
}

/// What goes to standard output: the compact text at verbosity 0 (listing the
/// endpoints of edges in the order `ids`), else the detailed text; then the
/// metrics at verbosity 2 or when asked.
pub open spec fn stdout_text(root: Seq<char>, r: QueryResult, o: RenderOptions, ids: Seq<SymbolId>) -> Seq<char> {
    (if o.verbosity == 0 { compact_text(r, o, ids) } else { detailed_text(root, r, o) })
        + (if o.verbosity >= 2 || o.show_metrics { metrics_text(r.metrics) } else { Seq::empty() })
}

/// The diagnostics, one per line.
pub open spec fn diagnostic_lines(ds: Seq<Diagnostic>) -> Seq<char>
    decreases ds.len(),
{
    if ds.len() == 0 {
        Seq::empty()
    } else {
        diagnostic_lines(ds.drop_last()) + diagnostic_line(ds.last())
    }
}

/// A diagnostic and a line break.
pub open spec fn diagnostic_line(d: Diagnostic) -> Seq<char> {
    d.text() + "\n"@
}

/// The notice that a result is partial.
pub open spec fn partial_notice() -> Seq<char> {
    "주의: 일부 분석 작업이 실패하여 부분 결과(Partial Result)만 표시됩니다.\n"@
}

/// What goes to standard error: the diagnostics from verbosity 1 on, then the
/// notice of a partial result.
pub open spec fn stderr_text(r: QueryResult, o: RenderOptions) -> Seq<char> {
    (if o.verbosity >= 1 { diagnostic_lines(r.diagnostics@) } else { Seq::empty() })
        + (if r.completion == Completion::Partial { partial_notice() } else { Seq::empty() })
}

/// The diagnostics, one per line.
fn diagnostic_lines_string(ds: &[Diagnostic]) -> (r: String)
    ensures
        r@ == diagnostic_lines(ds@),
{
    let mut acc = String::new();
    let n = ds.len();
    let mut i: usize = 0;
    while i < n
        invariant
            n == ds@.len(),
            i <= n,
            acc@ == diagnostic_lines(ds@.take(i as int)),
        decreases n - i,
    {
        let mut line = ds[i].to_string();
        push_str(&mut line, "\n");
        push_str(&mut acc, line.as_str());
        proof {
            let t = ds@.take(i + 1);
            assert(t.drop_last() =~= ds@.take(i as int));
            assert(t.last() == ds@[i as int]);
        }
        i = i + 1;
    }
    proof {
        assert(ds@.take(n as int) =~= ds@);
    }
    acc
}

/// The exit code of a result: 1 for a partial result, 0 otherwise.
pub open spec fn exit_code_of(c: Completion) -> i32 {
    if c == Completion::Partial { 1 } else { 0 }
}

impl HumanRenderer {
    /// Renders a result with the options: standard output, standard error and
    /// the exit code.
    pub fn render_with_options(&self, project: &ProjectContext, result: &QueryResult, options: RenderOptions) -> (r: RenderedOutput)
        ensures
            exists|ids: Seq<SymbolId>| endpoint_listing(kept_pairs(options, result.edges@), ids)
                && r.stdout@ == stdout_text(project.source_root@, *result, options, ids),
            r.stderr@ == stderr_text(*result, options),
            r.exit_code == exit_code_of(result.completion),
    {
        let wf = result.symbols.is_wf();
        let mut t0 = String::new();
        let ids = push_compact(&mut t0, result, wf, &options);
        assert(t0@ =~= compact_text(*result, options, ids@));
        let body = if options.verbosity == 0 {
            t0
        } else {
            let mut t = paths_block_string(project, result, wf);
            let (rel, kept) = relations_string(project, result, wf, &options);
            let block = if kept == 0 {
                String::new()
            } else {
                let mut b = "=== 호출 관계 (Call Edges) ===\n".to_string();
                push_str(&mut b, rel.as_str());
                b
            };
            push_str(&mut t, block.as_str());
            let summary = summary_string(result);
            push_str(&mut t, summary.as_str());
            let report = if options.verbosity >= 2 { tu_report_string(project, &result.metrics) } else { String::new() };
            push_str(&mut t, report.as_str());
            t
        };
        let mut stdout = body;
        let metrics = if options.verbosity >= 2 || options.show_metrics { metrics_string(&result.metrics) } else { String::new() };
        push_str(&mut stdout, metrics.as_str());
        let mut stderr = if options.verbosity >= 1 { diagnostic_lines_string(result.diagnostics.as_slice()) } else { String::new() };
        let notice = if result.completion == Completion::Partial {
            "주의: 일부 분석 작업이 실패하여 부분 결과(Partial Result)만 표시됩니다.\n".to_string()
        } else {
            String::new()
        };
        push_str(&mut stderr, notice.as_str());
        let exit_code: i32 = if result.completion == Completion::Partial { 1 } else { 0 };
        assert(stdout@ == stdout_text(project.source_root@, *result, options, ids@));
        RenderedOutput { stdout, stderr, exit_code }
    }

    /// Renders a result with the default options: the compact text.
    pub fn render(&self, project: &ProjectContext, result: &QueryResult) -> (r: RenderedOutput)
        ensures
            exists|ids: Seq<SymbolId>| endpoint_listing(kept_pairs(RenderOptions::default_spec(), result.edges@), ids)
                && r.stdout@ == compact_text(*result, RenderOptions::default_spec(), ids),
            r.stderr@ == stderr_text(*result, RenderOptions::default_spec()),
            r.exit_code == exit_code_of(result.completion),
    {
        self.render_with_options(project, result, RenderOptions::default())
    }
}

impl RenderOptions {
    /// Whether the options keep an edge (see [`kept`]).
    pub fn keeps(&self, e: &CallEdge) -> (r: bool)
        ensures
            r == kept(*self, *e),
    {
        !(self.no_unresolved && e.confidence == Confidence::Unresolved) && !(self.no_foreign && e.kind == CallKind::Foreign)
    }
}

/// The position of the identifier with the key of `id` in `ids`.
pub open spec fn pos_in(ids: Seq<SymbolId>, id: SymbolId) -> int {
    choose|j: int| 0 <= j < ids.len() && enc_symbol_id(ids[j]) == enc_symbol_id(id)
}

/// A Mermaid node: `n<i>` labelled with the name.
pub open spec fn mermaid_node(r: QueryResult, i: nat, id: SymbolId) -> Seq<char> {
    "    n"@ + digits(i, 10) + "[\""@ + label(r, id) + "\"]\n"@
}

/// A DOT node: `n<i>` labelled with the name.
pub open spec fn dot_node(r: QueryResult, i: nat, id: SymbolId) -> Seq<char> {
    "  n"@ + digits(i, 10) + " [label=\""@ + label(r, id) + "\"];\n"@
}

/// The node lines of a diagram, one per identifier, numbered from 0.
pub open spec fn diagram_nodes(r: QueryResult, ids: Seq<SymbolId>, mermaid: bool) -> Seq<char>
    decreases ids.len(),
{
    if ids.len() == 0 {
        Seq::empty()
    } else {
        let i = (ids.len() - 1) as nat;
        diagram_nodes(r, ids.drop_last(), mermaid)
            + (if mermaid { mermaid_node(r, i, ids.last()) } else { dot_node(r, i, ids.last()) })
    }
}

/// One diagram edge between nodes `a` and `b`, labelled with the confidence.
pub open spec fn diagram_edge(a: int, b: int, c: Confidence, mermaid: bool) -> Seq<char> {
    if mermaid {
        "    n"@ + digits(a as nat, 10) + " -->|"@ + c.text() + "| n"@ + digits(b as nat, 10) + "\n"@
    } else {
        "  n"@ + digits(a as nat, 10) + " -> n"@ + digits(b as nat, 10) + " [label=\""@ + c.text() + "\"];\n"@
    }
}

/// The kept edges with a callee: the caller and callee, and the confidence.
pub open spec fn kept_links(o: RenderOptions, edges: Seq<CallEdge>) -> Seq<((SymbolId, SymbolId), Confidence)>
    decreases edges.len(),
{
    if edges.len() == 0 {
        Seq::empty()
    } else {
        let prev = kept_links(o, edges.drop_last());
        let e = edges.last();
        if kept(o, e) {
            match e.callee {
                Some(c) => prev.push(((e.caller, c), e.confidence)),
                None => prev,
            }
        } else {
            prev
        }
    }
}

/// The edge lines of a diagram, nodes numbered by their position in `ids`.
pub open spec fn diagram_edges(ids: Seq<SymbolId>, ls: Seq<((SymbolId, SymbolId), Confidence)>, mermaid: bool) -> Seq<char>
    decreases ls.len(),
{
    if ls.len() == 0 {
        Seq::empty()
    } else {
        let l = ls.last();
        diagram_edges(ids, ls.drop_last(), mermaid) + diagram_edge(pos_in(ids, l.0.0), pos_in(ids, l.0.1), l.1, mermaid)
    }
}

/// A diagram of the kept edges: a Mermaid flowchart or a DOT digraph, with one
/// node per endpoint (in the order `ids`) and one arrow per edge.
pub open spec fn diagram_text(r: QueryResult, o: RenderOptions, ids: Seq<SymbolId>, mermaid: bool) -> Seq<char> {
    let ls = kept_links(o, r.edges@);
    if mermaid {
        "flowchart TD\n"@ + diagram_nodes(r, ids, true) + diagram_edges(ids, ls, true)
    } else {
        "digraph calljet {\n"@ + diagram_nodes(r, ids, false) + diagram_edges(ids, ls, false) + "}\n"@
    }
}

/// The kept edges with a callee, with their confidence.
fn kept_links_exec(edges: &[CallEdge], o: &RenderOptions) -> (r: Vec<((SymbolId, SymbolId), Confidence)>)
    ensures
        r@ == kept_links(*o, edges@),
        r@.map_values(|l: ((SymbolId, SymbolId), Confidence)| l.0) == kept_pairs(*o, edges@),
{
    let mut ls: Vec<((SymbolId, SymbolId), Confidence)> = Vec::new();
    let n = edges.len();
    let mut i: usize = 0;
    while i < n
        invariant
            n == edges@.len(),
            i <= n,
            ls@ == kept_links(*o, edges@.take(i as int)),
            ls@.map_values(|l: ((SymbolId, SymbolId), Confidence)| l.0) == kept_pairs(*o, edges@.take(i as int)),
        decreases n - i,
    {
        let e = &edges[i];
        let ghost prev = ls@;
        proof {
            let t = edges@.take(i + 1);
            assert(t.drop_last() =~= edges@.take(i as int));
            assert(t.last() == edges@[i as int]);
        }
        if o.keeps(e) {
            match &e.callee {
                Some(c) => {
                    ls.push(((e.caller.clone(), c.clone()), e.confidence));
                    assert(ls@.map_values(|l: ((SymbolId, SymbolId), Confidence)| l.0)
                        =~= prev.map_values(|l: ((SymbolId, SymbolId), Confidence)| l.0).push((e.caller, *c)));
                },
                None => {},
            }
        }
        i = i + 1;
    }
    proof {
        assert(edges@.take(n as int) =~= edges@);
    }
    ls
}

/// The position of the identifier with the key of `id`, which `ids` lists.
fn position_of(ids: &[SymbolId], id: &SymbolId) -> (r: usize)
    requires
        listed(ids@, *id),
        forall|i: int, j: int| 0 <= i < j < ids@.len() ==> enc_symbol_id(#[trigger] ids@[i]) != enc_symbol_id(#[trigger] ids@[j]),
    ensures
        r == pos_in(ids@, *id),
        r < ids@.len(),
{
    let n = ids.len();
    let mut j: usize = 0;
    while j < n
        invariant
            n == ids@.len(),
            j <= n,
            listed(ids@, *id),
            forall|i: int, j: int| 0 <= i < j < ids@.len() ==> enc_symbol_id(#[trigger] ids@[i]) != enc_symbol_id(#[trigger] ids@[j]),
            listed(ids@, *id),
            forall|i: int, j: int| 0 <= i < j < ids@.len() ==> enc_symbol_id(#[trigger] ids@[i]) != enc_symbol_id(#[trigger] ids@[j]),
            forall|t: int| 0 <= t < j ==> enc_symbol_id(#[trigger] ids@[t]) != enc_symbol_id(*id),
        decreases n - j,
    {
        if crate::keys::same_symbol_id(&ids[j], id) {
            proof {
                let p = pos_in(ids@, *id);
                assert(0 <= p < ids@.len() && enc_symbol_id(ids@[p]) == enc_symbol_id(*id));
                if p != j {
                    if p < j {
                        assert(enc_symbol_id(ids@[p]) != enc_symbol_id(ids@[j as int]));
                    } else {
                        assert(enc_symbol_id(ids@[j as int]) != enc_symbol_id(ids@[p]));
                    }
                }
            }
            return j;
        }
        j = j + 1;
    }
    proof {
        let w = choose|w: int| 0 <= w < ids@.len() && enc_symbol_id(#[trigger] ids@[w]) == enc_symbol_id(*id);
        assert(enc_symbol_id(ids@[w]) != enc_symbol_id(*id));
    }
    0
}

impl HumanRenderer {
    /// Renders the kept edges as a Mermaid flowchart (`mermaid`) or a DOT
    /// digraph: one node per endpoint, one arrow per edge, labelled with its
    /// confidence.
    pub fn render_diagram(&self, result: &QueryResult, options: &RenderOptions, mermaid: bool) -> (r: String)
        ensures
            exists|ids: Seq<SymbolId>| endpoint_listing(kept_pairs(*options, result.edges@), ids)
                && r@ == diagram_text(*result, *options, ids, mermaid),
    {
        let wf = result.symbols.is_wf();
        let ls = kept_links_exec(result.edges.as_slice(), options);
        let ps = kept_pairs_exec(result.edges.as_slice(), options);
        let ids = traversal_order(ps.as_slice());
        let mut nodes = String::new();
        let n = ids.len();
        let mut i: usize = 0;
        while i < n
            invariant
                n == ids@.len(),
                i <= n,
                wf == result.symbols.wf(),
                nodes@ == diagram_nodes(*result, ids@.take(i as int), mermaid),
            decreases n - i,
        {
            let mut line = if mermaid { "    n".to_string() } else { "  n".to_string() };
            let num = format_u64(i as u64, 10);
            push_str(&mut line, num.as_str());
            push_str(&mut line, if mermaid { "[\"" } else { " [label=\"" });
            push_label(&mut line, result, wf, &ids[i]);
            push_str(&mut line, if mermaid { "\"]\n" } else { "\"];\n" });
            push_str(&mut nodes, line.as_str());
            proof {
                let t = ids@.take(i + 1);
                assert(t.drop_last() =~= ids@.take(i as int));
                assert(t.last() == ids@[i as int]);
            }
            i = i + 1;
        }
        proof {
            assert(ids@.take(n as int) =~= ids@);
        }
        let mut arrows = String::new();
        let m = ls.len();
        let mut k: usize = 0;
        while k < m
            invariant
                m == ls@.len(),
                k <= m,
                endpoint_listing(ps@, ids@),
                ps@ == kept_pairs(*options, result.edges@),
                ls@.map_values(|l: ((SymbolId, SymbolId), Confidence)| l.0) == ps@,
                arrows@ == diagram_edges(ids@, ls@.take(k as int), mermaid),
            decreases m - k,
        {
            proof {
                assert(ls@.map_values(|l: ((SymbolId, SymbolId), Confidence)| l.0)[k as int] == ls@[k as int].0);
                assert(ps@[k as int] == ls@[k as int].0);
            }
            let a = position_of(ids.as_slice(), &ls[k].0.0);
            let b = position_of(ids.as_slice(), &ls[k].0.1);
            let sa = format_u64(a as u64, 10);
            let sb = format_u64(b as u64, 10);
            let conf = ls[k].1.to_string();
            let mut line = if mermaid { "    n".to_string() } else { "  n".to_string() };
            push_str(&mut line, sa.as_str());
            if mermaid {
                push_str(&mut line, " -->|");
                push_str(&mut line, conf.as_str());
                push_str(&mut line, "| n");
                push_str(&mut line, sb.as_str());
                push_str(&mut line, "\n");
            } else {
                push_str(&mut line, " -> n");
                push_str(&mut line, sb.as_str());
                push_str(&mut line, " [label=\"");
                push_str(&mut line, conf.as_str());
                push_str(&mut line, "\"];\n");
            }
            push_str(&mut arrows, line.as_str());
            proof {
                let t = ls@.take(k + 1);
                assert(t.drop_last() =~= ls@.take(k as int));
                assert(t.last() == ls@[k as int]);
            }
            k = k + 1;
        }
        proof {
            assert(ls@.take(m as int) =~= ls@);
        }
        let mut out = if mermaid { "flowchart TD\n".to_string() } else { "digraph calljet {\n".to_string() };
        push_str(&mut out, nodes.as_str());
        push_str(&mut out, arrows.as_str());
        if !mermaid {
            push_str(&mut out, "}\n");
        }
        assert(out@ == diagram_text(*result, *options, ids@, mermaid));
        assert(endpoint_listing(kept_pairs(*options, result.edges@), ids@));
        out
    }
}

} // verus!
