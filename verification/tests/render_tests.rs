use calljet::compile_db::CompilationDb;
use calljet::diagnostic::{AnalysisCause, AnalysisIssue, Diagnostic, Severity};
use calljet::keys::{compilation_key_key, symbol_id_key};
use calljet::model::{
    CallEdge, CallEdgeId, CallKind, CallPath, CompilationKey, Completion, Confidence, Language, QueryMetrics,
    QueryResult, ResultCounts, SourceLocation, SourceRange, Symbol, SymbolId, VerificationEvidence,
    VerificationReason,
};
use calljet::order::OrdMap;
use calljet::project::{ProjectContext, RootState};
use calljet::render::{HumanRenderer, OutputFormat, RenderOptions};

fn project() -> ProjectContext {
    ProjectContext::open("/p".to_string(), RootState::Resolved("/p".to_string()), CompilationDb::new()).unwrap()
}

fn id(name: &str) -> SymbolId {
    SymbolId::clang_usr(Language::Cpp, &format!("c:@F@{name}#"))
}

fn symbol(name: &str, ns: Option<&str>, class: Option<&str>, file: &str, line: u32) -> Symbol {
    let qualified = match (ns, class) {
        (Some(n), Some(c)) => format!("{n}::{c}::{name}"),
        (Some(n), None) => format!("{n}::{name}"),
        (None, Some(c)) => format!("{c}::{name}"),
        (None, None) => name.to_string(),
    };
    Symbol {
        id: id(name),
        name: name.to_string(),
        qualified_name: Some(qualified),
        namespace: ns.map(|s| s.to_string()),
        class_name: class.map(|s| s.to_string()),
        signature: None,
        declaration: Some(SourceLocation::new(file, line, 1)),
        definition: None,
    }
}

fn edge(n: u32, caller: &str, callee: Option<&str>, conf: Confidence, kind: CallKind, file: &str, line: u32) -> CallEdge {
    let key = CompilationKey("ctx1".to_string());
    let mut contexts = OrdMap::new();
    contexts.insert(compilation_key_key(&key), key.clone());
    let mut evidence_by_context = OrdMap::new();
    evidence_by_context.insert(
        compilation_key_key(&key),
        (
            key.clone(),
            VerificationEvidence {
                expression_text: Some(format!("{}()", callee.unwrap_or("fp"))),
                static_target: None,
                candidate_targets: Vec::new(),
                clang_diagnostics: Vec::new(),
                reason: VerificationReason::ExactReference,
                spelling_location: Some(SourceLocation::new(file, line, 5)),
                expansion_location: None,
                is_virtual: false,
                is_template_related: false,
                is_macro_expanded: false,
            },
        ),
    );
    CallEdge {
        id: CallEdgeId(n),
        caller: id(caller),
        callee: callee.map(id),
        callsite: SourceRange::spanned(SourceLocation::new(file, line, 5), SourceLocation::new(file, line, 12)),
        kind,
        confidence: conf,
        contexts,
        evidence_by_context,
    }
}

fn result(symbols: Vec<Symbol>, edges: Vec<CallEdge>, paths: Vec<CallPath>, completion: Completion) -> QueryResult {
    let mut map = OrdMap::new();
    for s in symbols {
        map.insert(symbol_id_key(&s.id), s);
    }
    let counts = ResultCounts {
        total_symbols: map.vals.len(),
        confirmed_edges: edges.iter().filter(|e| e.confidence == Confidence::Confirmed).count(),
        possible_edges: edges.iter().filter(|e| e.confidence == Confidence::Possible).count(),
        unresolved_edges: edges.iter().filter(|e| e.confidence == Confidence::Unresolved).count(),
        paths_count: paths.len(),
    };
    QueryResult { completion, symbols: map, edges, paths, counts, diagnostics: Vec::new(), metrics: QueryMetrics::default() }
}

fn chain_result() -> QueryResult {
    result(
        vec![
            symbol("handle", Some("app"), None, "/p/src/app.cpp", 3),
            symbol("save", Some("app"), None, "/p/src/app.cpp", 2),
            symbol("flush", Some("app"), None, "/p/src/app.cpp", 1),
        ],
        vec![
            edge(2, "save", Some("flush"), Confidence::Confirmed, CallKind::Direct, "/p/src/app.cpp", 2),
            edge(1, "handle", Some("save"), Confidence::Confirmed, CallKind::Direct, "/p/src/app.cpp", 3),
        ],
        Vec::new(),
        Completion::Complete,
    )
}

#[test]
fn test_compact_edges_follow_traversal_order() {
    let rendered = HumanRenderer::new().render(&project(), &chain_result());
    assert_eq!(rendered.stdout, "app::handle\napp::save\napp::flush\n");
    assert_eq!(rendered.stderr, "");
    assert_eq!(rendered.exit_code, 0);
}

#[test]
fn test_compact_paths_are_separated_by_empty_lines() {
    let mut r = chain_result();
    r.paths = vec![
        CallPath { nodes: vec![id("save"), id("flush")], edges: vec![CallEdgeId(2)] },
        CallPath { nodes: vec![id("handle"), id("save"), id("flush")], edges: vec![CallEdgeId(1), CallEdgeId(2)] },
    ];
    let rendered = HumanRenderer::new().render(&project(), &r);
    assert_eq!(rendered.stdout, "app::save\napp::flush\n\napp::handle\napp::save\napp::flush\n");
}

#[test]
fn test_compact_no_result() {
    let r = result(vec![symbol("foo", None, None, "/p/a.c", 1)], Vec::new(), Vec::new(), Completion::NoResult);
    let rendered = HumanRenderer::new().render(&project(), &r);
    assert_eq!(rendered.stdout, "결과 없음 (No Result)\n");
    assert_eq!(rendered.exit_code, 0);
}

#[test]
fn test_verbose_relations_show_symbol_hierarchy() {
    let r = result(
        vec![
            symbol("run", Some("App"), Some("Controller"), "/p/src/member.cpp", 9),
            symbol("target", Some("App"), Some("Service"), "/p/src/member.cpp", 4),
        ],
        vec![edge(1, "run", Some("target"), Confidence::Confirmed, CallKind::Direct, "/p/src/member.cpp", 10)],
        Vec::new(),
        Completion::Complete,
    );
    let rendered = HumanRenderer::new().render_with_options(&project(), &r, RenderOptions { verbosity: 1, ..RenderOptions::default() });
    assert!(rendered.stdout.contains("Relation #1: App::Controller::run -> App::Service::target [CONFIRMED]"));
    assert!(rendered.stdout.contains("Directory : src"));
    assert!(rendered.stdout.contains("FullSymbol: App::Controller::run"));
    assert!(rendered.stdout.contains("Namespace : App"));
    assert!(rendered.stdout.contains("Class     : Controller"));
    assert!(rendered.stdout.contains("Function  : run"));
    assert!(rendered.stdout.contains("FullSymbol: App::Service::target"));
    assert!(rendered.stdout.contains("Class     : Service"));
    assert!(rendered.stdout.contains("  Callsite  : src/member.cpp:10:5-10:12 (direct)\n"));
    assert!(rendered.stdout.contains("상태: 분석 완료 (Complete)\n"));
    assert!(rendered.stdout.contains(
        "통계: 총 심볼 2개, 확정 엣지(CONFIRMED) 1개, 가능 엣지(POSSIBLE) 0개, 미해결 엣지(UNRESOLVED) 0개\n"
    ));
    assert!(!rendered.stdout.contains("표현식:"));
    assert!(!rendered.stdout.contains("[UNRESOLVED]"));

    let very = HumanRenderer::new().render_with_options(&project(), &r, RenderOptions { verbosity: 2, ..RenderOptions::default() });
    assert!(very.stdout.contains("표현식: `target()`"));
    assert!(very.stdout.contains("사유: ExactReference, 컨텍스트: ctx1"));
    assert!(very.stdout.contains("  Contexts  : ctx1\n"));
    assert!(very.stdout.contains("  Evidence\n"));
    assert!(very.stdout.contains("Spelling: src/member.cpp:10:5"));
    assert!(very.stdout.contains("[상세 번역 단위(TU) 리포트]"));
    assert!(very.stdout.contains("[성능 및 비용 지표"));
}

#[test]
fn test_verbose_paths_show_steps() {
    let mut r = chain_result();
    r.paths = vec![CallPath { nodes: vec![id("handle"), id("save"), id("flush")], edges: vec![CallEdgeId(1), CallEdgeId(2)] }];
    let rendered = HumanRenderer::new().render_with_options(&project(), &r, RenderOptions { verbosity: 1, ..RenderOptions::default() });
    assert!(rendered.stdout.starts_with("=== 호출 경로 (Call Path) ===\n경로 #1:\n  [0] app::handle (src/app.cpp:3:1)\n      ↓ [CONFIRMED] (direct) at src/app.cpp:3:5-3:12\n"));
    assert!(rendered.stdout.contains("  [2] app::flush (src/app.cpp:1:1)\n"));
}

#[test]
fn test_unresolved_edges_can_be_left_out() {
    let mut r = chain_result();
    r.edges.push(edge(3, "flush", None, Confidence::Unresolved, CallKind::Unresolved, "/p/src/app.cpp", 1));
    let shown = HumanRenderer::new().render_with_options(&project(), &r, RenderOptions { verbosity: 1, ..RenderOptions::default() });
    assert!(shown.stdout.contains("Relation #3: app::flush -> <unresolved> [UNRESOLVED]"));
    let hidden = HumanRenderer::new().render_with_options(
        &project(),
        &r,
        RenderOptions { verbosity: 1, no_unresolved: true, ..RenderOptions::default() },
    );
    assert!(!hidden.stdout.contains("[UNRESOLVED]\n"));
    assert!(!hidden.stdout.contains("Relation #3"));
}

#[test]
fn test_partial_result_exit_code_and_diagnostics() {
    let mut r = chain_result();
    r.completion = Completion::Partial;
    r.diagnostics.push(Diagnostic::analysis(AnalysisIssue {
        severity: Severity::Recoverable,
        context: Some(CompilationKey("k".to_string())),
        location: None,
        message: "parse failed".to_string(),
        cause: AnalysisCause::TranslationUnitParseFailed,
    }));
    let compact = HumanRenderer::new().render(&project(), &r);
    assert_eq!(compact.exit_code, 1);
    assert_eq!(compact.stderr, "주의: 일부 분석 작업이 실패하여 부분 결과(Partial Result)만 표시됩니다.\n");
    let verbose = HumanRenderer::new().render_with_options(&project(), &r, RenderOptions { verbosity: 1, ..RenderOptions::default() });
    assert_eq!(
        verbose.stderr,
        "분석 문제(Analysis Issue): [Recoverable] parse failed (context: k)\n주의: 일부 분석 작업이 실패하여 부분 결과(Partial Result)만 표시됩니다.\n"
    );
}

#[test]
fn test_truncated_status_line() {
    let mut r = chain_result();
    r.completion = Completion::Truncated { max_depth: 2 };
    let rendered = HumanRenderer::new().render_with_options(&project(), &r, RenderOptions { verbosity: 1, ..RenderOptions::default() });
    assert!(rendered.stdout.contains("상태: 최대 깊이 도달로 잘림 (Truncated at depth 2)\n"));
    assert_eq!(rendered.exit_code, 0);
}

#[test]
fn test_metrics_only_when_asked() {
    let compact = HumanRenderer::new().render(&project(), &chain_result());
    assert!(!compact.stdout.contains("[성능 및 비용 지표]"));
    let with_metrics = HumanRenderer::new().render_with_options(
        &project(),
        &chain_result(),
        RenderOptions { show_metrics: true, ..RenderOptions::default() },
    );
    assert!(with_metrics.stdout.starts_with("app::handle\napp::save\napp::flush\n\n[성능 및 비용 지표]\n검사한 소스 파일: 0\n"));
}

#[test]
fn test_mermaid_and_dot_diagrams() {
    let r = chain_result();
    let options = RenderOptions { format: OutputFormat::Mermaid, ..RenderOptions::default() };
    let mermaid = HumanRenderer::new().render_diagram(&r, &options, true);
    assert_eq!(
        mermaid,
        "flowchart TD\n    n0[\"app::handle\"]\n    n1[\"app::save\"]\n    n2[\"app::flush\"]\n    n1 -->|CONFIRMED| n2\n    n0 -->|CONFIRMED| n1\n"
    );
    let dot = HumanRenderer::new().render_diagram(&r, &options, false);
    assert_eq!(
        dot,
        "digraph calljet {\n  n0 [label=\"app::handle\"];\n  n1 [label=\"app::save\"];\n  n2 [label=\"app::flush\"];\n  n1 -> n2 [label=\"CONFIRMED\"];\n  n0 -> n1 [label=\"CONFIRMED\"];\n}\n"
    );
}

#[test]
fn test_default_render_options() {
    let o = RenderOptions::default();
    assert_eq!(o.format, OutputFormat::Text);
    assert_eq!(o.verbosity, 0);
    assert!(o.output_file.is_none());
    assert!(!o.show_metrics && !o.progress && !o.no_unresolved && !o.no_foreign);
}
