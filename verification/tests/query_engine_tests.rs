use calljet::compile_db::{validate_entry, CompilationDb, DatabaseFile, RawCompileEntry};
use calljet::diagnostic::{AnalysisCause, AnalysisIssue, FatalError, QueryError, Severity};
use calljet::discovery::{DiscoveryIndex, SourceFile};
use calljet::keys::compilation_key_key;
use calljet::model::{
    CallEdge, CallEdgeId, CallKind, CandidateSymbol, CandidateSymbolId, CompilationKey, Completion,
    Confidence, QueryRequest, QueryResult, Symbol, SymbolId, SymbolQuery,
};
use calljet::order::OrdMap;
use calljet::project::{ProjectContext, RootState};
use calljet::query::QueryEngine;
use calljet::render::{HumanRenderer, RenderOptions};
use calljet::semantic::{ResolutionBatch, SemanticProvider, VerificationBatch, VerificationResult};

const CHAIN: &str = "void leaf() {}\nvoid mid() { leaf(); }\nvoid root_fn() { mid(); }\n";

fn project_with_db() -> ProjectContext {
    let entry = RawCompileEntry {
        directory: Some("/proj".to_string()),
        file: Some("chain.cpp".to_string()),
        command: Some("clang++ -c chain.cpp".to_string()),
        arguments: None,
        output: None,
    };
    let (mut db, rest) = CompilationDb::begin_load("/proj/compile_commands.json", DatabaseFile::Entries(vec![entry])).unwrap();
    for (index, e) in rest.into_iter().enumerate() {
        let valid = validate_entry(e, index).unwrap();
        let dir = valid.directory.clone();
        let file = valid.file_path(&dir);
        db.add_entry(Ok(valid.into_context(dir, file)));
    }
    ProjectContext::open("/proj".to_string(), RootState::Resolved("/proj".to_string()), db).unwrap()
}

fn chain_files() -> Vec<SourceFile> {
    vec![SourceFile { path: "/proj/chain.cpp".to_string(), contents: Some(CHAIN.as_bytes().to_vec()) }]
}

fn translation_unit_failure() -> AnalysisIssue {
    AnalysisIssue {
        severity: Severity::Recoverable,
        context: Some(CompilationKey("test-context".to_string())),
        location: None,
        message: "libclang unavailable".to_string(),
        cause: AnalysisCause::TranslationUnitParseFailed,
    }
}

struct UnavailableSemanticProvider;

impl SemanticProvider for UnavailableSemanticProvider {
    fn resolve_symbols(&mut self, _project: &ProjectContext, _discovery: &DiscoveryIndex, _candidates: &[CandidateSymbolId]) -> ResolutionBatch {
        ResolutionBatch { issues: vec![translation_unit_failure()], failed_contexts: 1, ..ResolutionBatch::default() }
    }

    fn verify_calls(&mut self, _project: &ProjectContext, _discovery: &DiscoveryIndex, _batch: VerificationBatch) -> VerificationResult {
        VerificationResult { issues: vec![translation_unit_failure()], ..VerificationResult::default() }
    }
}

struct CheckedButMissingSemanticProvider;

impl SemanticProvider for CheckedButMissingSemanticProvider {
    fn resolve_symbols(&mut self, _project: &ProjectContext, _discovery: &DiscoveryIndex, _candidates: &[CandidateSymbolId]) -> ResolutionBatch {
        ResolutionBatch { checked_contexts: 1, ..ResolutionBatch::default() }
    }

    fn verify_calls(&mut self, _project: &ProjectContext, _discovery: &DiscoveryIndex, _batch: VerificationBatch) -> VerificationResult {
        VerificationResult { context_checked: true, ..VerificationResult::default() }
    }
}

fn fallback_like(candidate: &CandidateSymbol) -> Symbol {
    Symbol {
        id: SymbolId::clang_usr(candidate.language, &format!("usr:@{}", candidate.name)),
        name: candidate.name.clone(),
        qualified_name: None,
        namespace: None,
        class_name: None,
        signature: None,
        declaration: Some(candidate.declaration.start.clone()),
        definition: candidate.definition_body.as_ref().map(|r| r.start.clone()),
    }
}

fn single_context(key: &CompilationKey) -> OrdMap<CompilationKey> {
    let mut m = OrdMap::new();
    m.insert(compilation_key_key(key), key.clone());
    m
}

#[derive(Default)]
struct ConfirmingProvider {
    next_edge_id: u32,
}

impl SemanticProvider for ConfirmingProvider {
    fn resolve_symbols(&mut self, _project: &ProjectContext, _discovery: &DiscoveryIndex, _candidates: &[CandidateSymbolId]) -> ResolutionBatch {
        ResolutionBatch { failed_contexts: 1, ..ResolutionBatch::default() }
    }

    fn verify_calls(&mut self, _project: &ProjectContext, discovery: &DiscoveryIndex, batch: VerificationBatch) -> VerificationResult {
        let mut result = VerificationResult { context_checked: true, ..VerificationResult::default() };
        for call_id in batch.calls {
            let Some(call) = discovery.call(call_id) else { continue };
            let Some(caller_candidate) = discovery.symbol(call.caller) else { continue };
            let Some(callee_candidate) = discovery.symbols.iter().find(|c| c.name == call.callee_spelling) else { continue };
            let caller = fallback_like(caller_candidate);
            let callee = fallback_like(callee_candidate);
            result.symbols.push(caller.clone());
            result.symbols.push(callee.clone());
            self.next_edge_id += 1;
            result.edges.push(CallEdge {
                id: CallEdgeId(self.next_edge_id),
                caller: caller.id,
                callee: Some(callee.id),
                callsite: call.expression.clone(),
                kind: CallKind::Direct,
                confidence: Confidence::Confirmed,
                contexts: single_context(&batch.context),
                evidence_by_context: OrdMap::new(),
            });
        }
        result
    }
}

#[derive(Default)]
struct TargetlessUnresolvedProvider {
    verify_calls: usize,
    next_edge_id: u32,
}

impl SemanticProvider for TargetlessUnresolvedProvider {
    fn resolve_symbols(&mut self, _project: &ProjectContext, _discovery: &DiscoveryIndex, _candidates: &[CandidateSymbolId]) -> ResolutionBatch {
        ResolutionBatch { failed_contexts: 1, ..ResolutionBatch::default() }
    }

    fn verify_calls(&mut self, _project: &ProjectContext, discovery: &DiscoveryIndex, batch: VerificationBatch) -> VerificationResult {
        self.verify_calls += 1;
        let mut result = VerificationResult { context_checked: true, ..VerificationResult::default() };
        for call_id in batch.calls {
            let Some(call) = discovery.call(call_id) else { continue };
            let Some(caller_candidate) = discovery.symbol(call.caller) else { continue };
            let caller = fallback_like(caller_candidate);
            result.symbols.push(caller.clone());
            self.next_edge_id += 1;
            result.edges.push(CallEdge {
                id: CallEdgeId(self.next_edge_id),
                caller: caller.id,
                callee: None,
                callsite: call.expression.clone(),
                kind: CallKind::Unresolved,
                confidence: Confidence::Unresolved,
                contexts: single_context(&batch.context),
                evidence_by_context: OrdMap::new(),
            });
        }
        result
    }
}

fn names(result: &QueryResult, nodes: &[SymbolId]) -> Vec<String> {
    nodes
        .iter()
        .map(|id| {
            let pos = result.symbols.vals.iter().position(|s| &s.id == id).unwrap();
            result.symbols.vals[pos].display_name().to_string()
        })
        .collect()
}

#[test]
fn test_treesitter_fallback_survives_unavailable_semantic_provider() {
    let project = project_with_db();
    let mut engine = QueryEngine::new(&project, UnavailableSemanticProvider, chain_files());
    let result = engine
        .execute(QueryRequest::Trace { target: SymbolQuery::parse("leaf"), max_depth: None, verified_only: false })
        .unwrap();

    assert_eq!(result.completion, Completion::Complete);
    assert_eq!(result.edges.len(), 2);
    assert!(result.edges.iter().all(|edge| edge.confidence == Confidence::Possible));
    assert_eq!(result.metrics.verified_translation_units, 0);
    assert!(result.metrics.verified_source_files.is_empty());
    assert!(!result.diagnostics.is_empty());
    assert_eq!(names(&result, &result.paths[0].nodes), vec!["root_fn", "mid", "leaf"]);

    let mut verified_only_engine = QueryEngine::new(&project, UnavailableSemanticProvider, chain_files());
    let verified_only = verified_only_engine
        .execute(QueryRequest::Trace { target: SymbolQuery::parse("leaf"), max_depth: None, verified_only: true })
        .unwrap();
    assert_eq!(verified_only.completion, Completion::NoResult);
    assert!(verified_only.edges.is_empty());
    assert!(verified_only.paths.is_empty());

    let mut callers_engine = QueryEngine::new(&project, UnavailableSemanticProvider, chain_files());
    let callers = callers_engine
        .execute(QueryRequest::Callers { target: SymbolQuery::parse("leaf"), max_depth: None, verified_only: false })
        .unwrap();
    assert_eq!(names(&callers, &callers.paths[0].nodes), vec!["root_fn", "mid", "leaf"]);
}

#[test]
fn test_targetless_unresolved_edges_do_not_expand_reverse_traversal() {
    let project = project_with_db();
    let mut callers_engine = QueryEngine::new(&project, TargetlessUnresolvedProvider::default(), chain_files());
    let callers = callers_engine
        .execute(QueryRequest::Callers { target: SymbolQuery::parse("leaf"), max_depth: None, verified_only: false })
        .unwrap();
    assert_eq!(callers_engine.provider.verify_calls, 1);
    assert_eq!(callers.edges.len(), 1);
    assert!(callers.edges[0].callee.is_none());

    let mut trace_engine = QueryEngine::new(&project, TargetlessUnresolvedProvider::default(), chain_files());
    let trace = trace_engine
        .execute(QueryRequest::Trace { target: SymbolQuery::parse("leaf"), max_depth: None, verified_only: false })
        .unwrap();
    assert_eq!(trace_engine.provider.verify_calls, 1);
    assert_eq!(trace.completion, Completion::NoResult);
    assert!(trace.edges.is_empty());
    assert!(trace.paths.is_empty());
}

#[test]
fn test_checked_semantic_context_still_rejects_missing_symbol() {
    let project = project_with_db();
    let files = vec![SourceFile {
        path: "/proj/conditional.cpp".to_string(),
        contents: Some(b"void hidden_target() {}\n".to_vec()),
    }];
    let mut engine = QueryEngine::new(&project, CheckedButMissingSemanticProvider, files);
    let error = engine
        .execute(QueryRequest::Callers { target: SymbolQuery::parse("hidden_target"), max_depth: None, verified_only: false })
        .expect_err("a checked context that rejects the symbol is final");
    assert!(matches!(error, FatalError::Query(QueryError::SymbolNotFound { query }) if query == "hidden_target"));
}

#[test]
fn test_unknown_symbol_is_not_found() {
    let project = project_with_db();
    let mut engine = QueryEngine::new(&project, UnavailableSemanticProvider, chain_files());
    let error = engine
        .execute(QueryRequest::Callees { source: SymbolQuery::parse("nowhere"), max_depth: None, verified_only: false })
        .unwrap_err();
    assert!(matches!(error, FatalError::Query(QueryError::SymbolNotFound { query }) if query == "nowhere"));
}

#[test]
fn test_callees_and_path_fall_back_to_syntax() {
    let project = project_with_db();
    let mut engine = QueryEngine::new(&project, UnavailableSemanticProvider, chain_files());
    let callees = engine
        .execute(QueryRequest::Callees { source: SymbolQuery::parse("root_fn"), max_depth: None, verified_only: false })
        .unwrap();
    assert_eq!(callees.completion, Completion::Complete);
    assert_eq!(callees.edges.len(), 2);
    let rendered = HumanRenderer::new().render(&project, &callees);
    assert_eq!(rendered.stdout, "root_fn\nmid\nleaf\n");
    assert_eq!(rendered.exit_code, 0);

    let mut path_engine = QueryEngine::new(&project, UnavailableSemanticProvider, chain_files());
    let path = path_engine
        .execute(QueryRequest::Path {
            source: SymbolQuery::parse("root_fn"),
            target: SymbolQuery::parse("leaf"),
            max_depth: None,
            verified_only: false,
        })
        .unwrap();
    assert_eq!(path.completion, Completion::Complete);
    assert_eq!(path.paths.len(), 1);
    assert_eq!(names(&path, &path.paths[0].nodes), vec!["root_fn", "mid", "leaf"]);
    assert_eq!(path.paths[0].edges.len(), 2);
}

#[test]
fn test_max_depth_truncates_reverse_search() {
    let project = project_with_db();
    let mut engine = QueryEngine::new(&project, UnavailableSemanticProvider, chain_files());
    let result = engine
        .execute(QueryRequest::Callers { target: SymbolQuery::parse("leaf"), max_depth: Some(1), verified_only: false })
        .unwrap();
    assert_eq!(result.completion, Completion::Truncated { max_depth: 1 });
    assert_eq!(result.edges.len(), 1);
    assert_eq!(names(&result, &result.paths[0].nodes), vec!["mid", "leaf"]);
}

#[test]
fn test_confirmed_edges_count_checked_contexts_and_files() {
    let project = project_with_db();
    let mut engine = QueryEngine::new(&project, ConfirmingProvider::default(), chain_files());
    let result = engine
        .execute(QueryRequest::Trace { target: SymbolQuery::parse("leaf"), max_depth: None, verified_only: true })
        .unwrap();
    assert_eq!(result.completion, Completion::Complete);
    assert_eq!(result.edges.len(), 2);
    assert!(result.edges.iter().all(|e| e.confidence == Confidence::Confirmed));
    assert_eq!(result.counts.confirmed_edges, 2);
    assert_eq!(result.counts.paths_count, 1);
    assert_eq!(result.metrics.verified_translation_units, 1);
    assert_eq!(result.metrics.verified_source_files, vec!["/proj/chain.cpp".to_string()]);
    assert!(result.metrics.skipped_source_files.is_empty());
    assert_eq!(result.metrics.available_translation_units, 1);
    assert!(result.metrics.source_files_inspected > 0);
    assert!(result.metrics.candidate_call_sites > 0);
    assert_eq!(names(&result, &result.paths[0].nodes), vec!["root_fn", "mid", "leaf"]);

    let rendered = HumanRenderer::new().render_with_options(&project, &result, RenderOptions { verbosity: 1, ..RenderOptions::default() });
    assert!(rendered.stdout.contains("Relation #1: "));
    assert!(rendered.stdout.contains("[CONFIRMED]"));
    assert!(rendered.stdout.contains("FullSymbol: mid"));
    assert!(rendered.stdout.contains("Directory : ."));
    assert!(rendered.stdout.contains("chain.cpp"));
    assert!(rendered.stdout.contains("상태: 분석 완료 (Complete)"));
}

#[test]
fn test_explain_keeps_edges_into_the_callee() {
    let project = project_with_db();
    let mut engine = QueryEngine::new(&project, ConfirmingProvider::default(), chain_files());
    let result = engine
        .execute(QueryRequest::Explain { caller: SymbolQuery::parse("mid"), callee: SymbolQuery::parse("leaf") })
        .unwrap();
    assert_eq!(result.completion, Completion::Complete);
    assert_eq!(result.edges.len(), 1);
    assert!(result.paths.is_empty());

    let mut none_engine = QueryEngine::new(&project, ConfirmingProvider::default(), chain_files());
    let none = none_engine
        .execute(QueryRequest::Explain { caller: SymbolQuery::parse("leaf"), callee: SymbolQuery::parse("mid") })
        .unwrap();
    assert_eq!(none.completion, Completion::NoResult);
    assert!(none.edges.is_empty());
    let rendered = HumanRenderer::new().render(&project, &none);
    assert_eq!(rendered.stdout, "결과 없음 (No Result)\n");
}

#[test]
fn test_same_source_and_target_path_is_one_node() {
    let project = project_with_db();
    let mut engine = QueryEngine::new(&project, UnavailableSemanticProvider, chain_files());
    let result = engine
        .execute(QueryRequest::Path {
            source: SymbolQuery::parse("mid"),
            target: SymbolQuery::parse("mid"),
            max_depth: None,
            verified_only: false,
        })
        .unwrap();
    assert_eq!(result.completion, Completion::Complete);
    assert_eq!(result.paths.len(), 1);
    assert_eq!(result.paths[0].nodes.len(), 1);
    assert!(result.paths[0].edges.is_empty());
}

#[test]
fn test_deterministic_output_on_the_fallback() {
    let project = project_with_db();
    let run = || {
        let mut engine = QueryEngine::new(&project, UnavailableSemanticProvider, chain_files());
        engine
            .execute(QueryRequest::Callers { target: SymbolQuery::parse("leaf"), max_depth: None, verified_only: false })
            .unwrap()
    };
    let (r1, r2) = (run(), run());
    assert_eq!(r1.completion, r2.completion);
    assert_eq!(format!("{:?}", r1.edges), format!("{:?}", r2.edges));
    assert_eq!(format!("{:?}", r1.paths), format!("{:?}", r2.paths));
    assert_eq!(r1.counts, r2.counts);
    assert_eq!(r1.diagnostics.len(), r2.diagnostics.len());
}

#[test]
fn test_cycle_terminates_on_the_fallback() {
    let project = project_with_db();
    let files = vec![SourceFile {
        path: "/proj/chain.cpp".to_string(),
        contents: Some(b"void b();\nvoid a() { b(); }\nvoid b() { a(); }\nvoid target() { a(); }\n".to_vec()),
    }];
    let mut engine = QueryEngine::new(&project, UnavailableSemanticProvider, files);
    let result = engine
        .execute(QueryRequest::Callers { target: SymbolQuery::parse("a"), max_depth: None, verified_only: false })
        .unwrap();
    assert_eq!(result.completion, Completion::Complete);
    assert!(result.edges.len() >= 2);
}
