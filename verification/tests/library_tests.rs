use calljet::compile_db::CompilationDb;
use calljet::diagnostic::{AnalysisCause, AnalysisIssue, Diagnostic, FatalError, InputError, InternalError, QueryError, Severity};
use calljet::keys::symbol_id_key;
use calljet::model::{
    CallEdge, CallEdgeId, CallKind, CandidateCallId, CandidateCallKind, CandidateCallSite, CandidateSymbol,
    CandidateSymbolId, CandidateSymbolKind, CompilationKey, Confidence, Language, LineColumn, SourceLocation,
    SourceRange, Symbol, SymbolId, VerificationReason,
};
use calljet::order::OrdMap;
use calljet::paths::{dir_of, extension, file_name, is_absolute, join, strip_prefix};
use calljet::project::{is_c_cpp_file, is_ignored_directory, source_file_set, ProjectContext, RootState};
use calljet::query::{build_caller_paths, calculate_counts, candidate_scope_parts, fallback_symbol};
use calljet::semantic::{
    callee_spelling_point, classify_call, qualified_name_of, scope_parts_of, verified_edge, ParseCache, ScopeKind,
};

fn id(name: &str) -> SymbolId {
    SymbolId::clang_usr(Language::C, &format!("c:@F@{name}"))
}

fn plain_edge(n: u32, caller: &str, callee: Option<&str>, confidence: Confidence) -> CallEdge {
    CallEdge {
        id: CallEdgeId(n),
        caller: id(caller),
        callee: callee.map(id),
        callsite: SourceRange::single(SourceLocation::new("/p/a.c", n, 1)),
        kind: CallKind::Direct,
        confidence,
        contexts: OrdMap::new(),
        evidence_by_context: OrdMap::new(),
    }
}

fn candidate(name: &str, qualifier: Option<&str>, owner: Option<&str>, kind: CandidateSymbolKind) -> CandidateSymbol {
    CandidateSymbol {
        id: CandidateSymbolId(1),
        language: Language::Cpp,
        syntactic_kind: kind,
        name: name.to_string(),
        qualifier_hint: qualifier.map(|s| s.to_string()),
        signature_hint: None,
        owner_hint: owner.map(|s| s.to_string()),
        declaration: SourceRange::single(SourceLocation::new("/p/a.cpp", 3, 7)),
        definition_body: None,
        syntax_complete: true,
    }
}

#[test]
fn test_calculate_counts_partitions_edges_by_confidence() {
    let edges = vec![
        plain_edge(1, "a", Some("b"), Confidence::Confirmed),
        plain_edge(2, "b", Some("c"), Confidence::Possible),
        plain_edge(3, "c", None, Confidence::Unresolved),
        plain_edge(4, "a", Some("c"), Confidence::Confirmed),
    ];
    let mut symbols = OrdMap::new();
    let s = fallback_symbol(&candidate("a", None, None, CandidateSymbolKind::Function));
    symbols.insert(symbol_id_key(&s.id), s);
    let counts = calculate_counts(&symbols, &edges, &[]);
    assert_eq!(counts.total_symbols, 1);
    assert_eq!(counts.confirmed_edges, 2);
    assert_eq!(counts.possible_edges, 1);
    assert_eq!(counts.unresolved_edges, 1);
    assert_eq!(counts.paths_count, 0);
    assert_eq!(counts.confirmed_edges + counts.possible_edges + counts.unresolved_edges, edges.len());
}

#[test]
fn test_caller_paths_start_at_top_level_callers() {
    let edges = vec![
        plain_edge(1, "handle", Some("save"), Confidence::Confirmed),
        plain_edge(2, "save", Some("flush"), Confidence::Confirmed),
        plain_edge(3, "scheduled_job", Some("save"), Confidence::Confirmed),
        plain_edge(4, "main", Some("handle"), Confidence::Confirmed),
        plain_edge(5, "x", None, Confidence::Unresolved),
    ];
    let paths = build_caller_paths(&id("flush"), &edges);
    assert_eq!(paths.len(), 2);
    let mut firsts: Vec<SymbolId> = paths.iter().map(|p| p.nodes[0].clone()).collect();
    firsts.sort_by_key(|i| symbol_id_key(i));
    let mut expected = vec![id("main"), id("scheduled_job")];
    expected.sort_by_key(|i| symbol_id_key(i));
    assert_eq!(firsts, expected);
    for p in &paths {
        assert_eq!(p.nodes.len(), p.edges.len() + 1);
        assert_eq!(p.nodes.last().unwrap(), &id("flush"));
    }
    let main_path = paths.iter().find(|p| p.nodes[0] == id("main")).unwrap();
    assert_eq!(main_path.nodes, vec![id("main"), id("handle"), id("save"), id("flush")]);
    assert_eq!(main_path.edges, vec![CallEdgeId(4), CallEdgeId(1), CallEdgeId(2)]);
}

#[test]
fn test_caller_paths_in_a_cycle_start_from_a_caller() {
    let edges = vec![
        plain_edge(1, "a", Some("b"), Confidence::Confirmed),
        plain_edge(2, "b", Some("a"), Confidence::Confirmed),
    ];
    let paths = build_caller_paths(&id("a"), &edges);
    assert_eq!(paths.len(), 1);
    assert_eq!(paths[0].nodes, vec![id("b"), id("a")]);
}

#[test]
fn test_caller_paths_are_shortest_and_in_identifier_order() {
    let edges = vec![
        plain_edge(1, "z_root", Some("mid"), Confidence::Confirmed),
        plain_edge(2, "mid", Some("leaf"), Confidence::Confirmed),
        plain_edge(3, "z_root", Some("leaf"), Confidence::Confirmed),
        plain_edge(4, "a_root", Some("mid"), Confidence::Confirmed),
        plain_edge(5, "lonely", Some("other"), Confidence::Confirmed),
    ];
    let paths = build_caller_paths(&id("leaf"), &edges);
    assert_eq!(paths.len(), 2);
    assert!(symbol_id_key(&paths[0].nodes[0]) < symbol_id_key(&paths[1].nodes[0]));
    assert_eq!(paths[0].nodes, vec![id("a_root"), id("mid"), id("leaf")]);
    assert_eq!(paths[1].nodes, vec![id("z_root"), id("leaf")]);
    assert_eq!(paths[1].edges, vec![CallEdgeId(3)]);
}

#[test]
fn test_caller_paths_without_edges_are_empty() {
    let paths = build_caller_paths(&id("leaf"), &[]);
    assert!(paths.is_empty());
    let only_unresolved = vec![plain_edge(1, "a", None, Confidence::Unresolved)];
    assert!(build_caller_paths(&id("leaf"), &only_unresolved).is_empty());
}

#[test]
fn test_candidate_scope_parts() {
    let f = candidate("flush", Some("app::io::"), None, CandidateSymbolKind::Function);
    assert_eq!(candidate_scope_parts(&f), (Some("app::io".to_string()), None));
    let m = candidate("send", Some("Core::Net::Socket::"), Some("Socket"), CandidateSymbolKind::Method);
    assert_eq!(candidate_scope_parts(&m), (Some("Core::Net".to_string()), Some("Socket".to_string())));
    let bare = candidate("send", None, Some("Socket"), CandidateSymbolKind::Method);
    assert_eq!(candidate_scope_parts(&bare), (None, Some("Socket".to_string())));
    let plain = candidate("main", None, None, CandidateSymbolKind::Function);
    assert_eq!(candidate_scope_parts(&plain), (None, None));
}

#[test]
fn test_fallback_symbol_from_candidate() {
    let c = candidate("send", Some("Core::Socket::"), Some("Socket"), CandidateSymbolKind::Method);
    let s = fallback_symbol(&c);
    assert_eq!(s.id, SymbolId::clang_usr(Language::Cpp, "usr:@send"));
    assert_eq!(s.name, "send");
    assert_eq!(s.qualified_name, Some("Core::Socket::send".to_string()));
    assert_eq!(s.namespace, Some("Core".to_string()));
    assert_eq!(s.class_name, Some("Socket".to_string()));
    assert_eq!(s.declaration, Some(SourceLocation::new("/p/a.cpp", 3, 7)));
    assert_eq!(s.display_name(), "Core::Socket::send");
}

#[test]
fn test_error_and_diagnostic_texts() {
    let q = QueryError::AmbiguousSymbol { query: "f".to_string(), candidates: vec!["a::f".to_string(), "b::f".to_string()] };
    assert_eq!(q.to_string(), "심볼 쿼리가 모호합니다(Ambiguous Symbol): 'f'. 가능한 후보: a::f, b::f");
    let nf = QueryError::SymbolNotFound { query: "g".to_string() };
    assert_eq!(nf.to_string(), "심볼을 찾을 수 없습니다(Symbol Not Found): 'g'");
    let e = QueryError::EdgeNotFound { caller: "a".to_string(), callee: "b".to_string() };
    assert_eq!(e.to_string(), "호출자 'a'와 피호출자 'b' 사이의 엣지를 찾을 수 없습니다(Edge Not Found)");
    let i = InputError::InvalidSourceRoot { path: "/x".to_string(), reason: "없음".to_string() };
    assert_eq!(i.to_string(), "유효하지 않은 소스 루트(Invalid Source Root) '/x': 없음");
    assert_eq!(Diagnostic::Input(i.clone()).to_string(), "입력 오류(Input Error): 유효하지 않은 소스 루트(Invalid Source Root) '/x': 없음");
    assert_eq!(FatalError::Input(i).to_string(), "유효하지 않은 소스 루트(Invalid Source Root) '/x': 없음");
    assert_eq!(FatalError::AnalysisFailed("boom".to_string()).to_string(), "분석 실패(Analysis Failed): boom");
    assert_eq!(InternalError::InvariantViolation("x".to_string()).to_string(), "내부 불변식 위반(Invariant Violation): x");
    assert_eq!(Diagnostic::Internal(InternalError::Other("y".to_string())).to_string(), "내부 오류(Internal Error): 내부 오류(Internal Error): y");
    let issue = AnalysisIssue {
        severity: Severity::Fatal,
        context: None,
        location: Some(SourceLocation::new("a.c", 2, 3)),
        message: "bad".to_string(),
        cause: AnalysisCause::SourceReadFailed,
    };
    assert_eq!(issue.to_string(), "[Fatal] bad at a.c:2:3");
    assert_eq!(Diagnostic::analysis(issue).to_string(), "분석 문제(Analysis Issue): [Fatal] bad at a.c:2:3");
    assert_eq!(FatalError::from(QueryError::SymbolNotFound { query: "z".to_string() }), FatalError::Query(QueryError::SymbolNotFound { query: "z".to_string() }));
}

#[test]
fn test_project_paths_and_filters() {
    let project = ProjectContext::open("proj".to_string(), RootState::Resolved("/abs/proj".to_string()), CompilationDb::new()).unwrap();
    assert_eq!(project.display_path("/abs/proj/src/a.c"), "src/a.c");
    assert_eq!(project.display_path("/other/a.c"), "/other/a.c");
    assert!(is_ignored_directory("/abs/proj/.git"));
    assert!(is_ignored_directory("node_modules"));
    assert!(!is_ignored_directory("/abs/proj/src"));
    assert!(is_c_cpp_file("a.CPP"));
    assert!(is_c_cpp_file("x/y.hpp"));
    assert!(is_c_cpp_file("x/y.tpp"));
    assert!(!is_c_cpp_file("x/y.rs"));
    assert!(!is_c_cpp_file("Makefile"));
    let set = source_file_set("/abs/proj", vec![
        "/abs/proj/b.c".to_string(),
        "/abs/proj/a.c".to_string(),
        "/elsewhere/c.c".to_string(),
        "/abs/proj/b.c".to_string(),
    ]);
    assert_eq!(set, vec!["/abs/proj/a.c".to_string(), "/abs/proj/b.c".to_string()]);
}

#[test]
fn test_project_open_errors() {
    let missing = ProjectContext::open("r".to_string(), RootState::Missing, CompilationDb::new()).unwrap_err();
    assert_eq!(missing, InputError::InvalidSourceRoot { path: "r".to_string(), reason: "지정된 소스 루트 디렉토리가 존재하지 않습니다.".to_string() });
    let not_dir = ProjectContext::open("r".to_string(), RootState::NotDirectory, CompilationDb::new()).unwrap_err();
    assert_eq!(not_dir, InputError::InvalidSourceRoot { path: "r".to_string(), reason: "지정된 소스 루트가 디렉토리가 아닙니다.".to_string() });
    let bad = ProjectContext::open("r".to_string(), RootState::Unresolvable("loop".to_string()), CompilationDb::new()).unwrap_err();
    assert_eq!(bad, InputError::InvalidSourceRoot { path: "r".to_string(), reason: "소스 루트 경로 정규화 실패: loop".to_string() });
}

#[test]
fn test_path_helpers() {
    assert_eq!(join("/a/b", "c.c"), "/a/b/c.c");
    assert_eq!(join("/a/b/", "c.c"), "/a/b/c.c");
    assert_eq!(join("/a/b", "/c.c"), "/c.c");
    assert_eq!(strip_prefix("/a/b/c.c", "/a"), Some("b/c.c".to_string()));
    assert_eq!(strip_prefix("/ab/c.c", "/a"), None);
    assert_eq!(file_name("/a/b/c.c"), Some("c.c".to_string()));
    assert_eq!(extension("/a/b/c.tar.gz"), Some("gz".to_string()));
    assert_eq!(extension("/a/.bashrc"), None);
    assert_eq!(dir_of("src/member.cpp"), "src");
    assert_eq!(dir_of("member.cpp"), "");
    assert!(is_absolute("/x"));
    assert!(!is_absolute("x/y"));
}

fn call_site(text: &str, spelling: &str, line: u32, column: u32) -> CandidateCallSite {
    CandidateCallSite {
        id: CandidateCallId(7),
        caller: CandidateSymbolId(1),
        callee_spelling: spelling.to_string(),
        callee_location: None,
        qualifier_hint: None,
        expression: SourceRange::single(SourceLocation::new("/p/a.cpp", line, column)),
        expression_text: Some(text.to_string()),
        syntax_hint: CandidateCallKind::Member,
        syntax_complete: true,
    }
}

#[test]
fn test_callee_spelling_point_finds_the_member_name() {
    assert_eq!(callee_spelling_point(&call_site("service.target()", "target", 10, 9)), Some(LineColumn { line: 10, column: 17 }));
    assert_eq!(callee_spelling_point(&call_site("obj\n  .run(x.run)", "run", 4, 5)), Some(LineColumn { line: 5, column: 4 }));
    assert_eq!(callee_spelling_point(&call_site("f()", "g", 1, 1)), None);
}

#[test]
fn test_call_verdicts_and_verified_edges() {
    assert_eq!(classify_call(false, false), (CallKind::Unresolved, Confidence::Unresolved, VerificationReason::IndirectTargetUnknown));
    assert_eq!(classify_call(true, true), (CallKind::Virtual, Confidence::Possible, VerificationReason::MultipleRuntimeTargets));
    assert_eq!(classify_call(true, false), (CallKind::Direct, Confidence::Confirmed, VerificationReason::ExactReference));

    let site = call_site("service.target()", "target", 10, 9);
    let key = CompilationKey("k1".to_string());
    let caller = fallback_symbol(&candidate("run", None, None, CandidateSymbolKind::Function));
    let callee = fallback_symbol(&candidate("target", None, None, CandidateSymbolKind::Function));
    let e = verified_edge(3, &site, &key, &caller, Some(callee.clone()), false, Vec::new());
    assert_eq!(e.id, CallEdgeId(3));
    assert_eq!(e.caller, caller.id);
    assert_eq!(e.callee, Some(callee.id.clone()));
    assert_eq!(e.confidence, Confidence::Confirmed);
    assert_eq!(e.contexts.vals, vec![key.clone()]);
    let (ctx, ev) = &e.evidence_by_context.vals[0];
    assert_eq!(ctx, &key);
    assert_eq!(ev.reason, VerificationReason::ExactReference);
    assert_eq!(ev.spelling_location, Some(SourceLocation::new("/p/a.cpp", 10, 9)));
    assert_eq!(ev.expression_text, Some("service.target()".to_string()));
    let unresolved = verified_edge(4, &site, &key, &caller, None, false, Vec::new());
    assert_eq!(unresolved.callee, None);
    assert_eq!(unresolved.kind, CallKind::Unresolved);
}

#[test]
fn test_clang_names() {
    let chain = vec!["run".to_string(), "Controller".to_string(), "".to_string(), "App".to_string()];
    assert_eq!(qualified_name_of(&chain), "App::Controller::run");
    assert_eq!(qualified_name_of(&["".to_string()]), "unnamed");
    let parents = vec![
        ("Inner".to_string(), ScopeKind::Class),
        ("Outer".to_string(), ScopeKind::Class),
        ("detail".to_string(), ScopeKind::Other),
        ("net".to_string(), ScopeKind::Namespace),
        ("app".to_string(), ScopeKind::Namespace),
    ];
    assert_eq!(scope_parts_of(&parents), (Some("app::net".to_string()), Some("Outer::Inner".to_string())));
    assert_eq!(scope_parts_of(&[]), (None, None));
}

#[test]
fn test_parse_cache_parses_each_context_once() {
    let mut cache: ParseCache<u64> = ParseCache::new();
    let k1 = CompilationKey("k1".to_string());
    let k2 = CompilationKey("k2".to_string());
    assert_eq!(cache.lookup(&k1), None);
    cache.store(&k1, Ok(11));
    cache.store(&k2, Err("broken".to_string()));
    assert_eq!(cache.lookup(&k1), Some(Ok(11)));
    assert_eq!(cache.lookup(&k1), Some(Ok(11)));
    assert_eq!(cache.lookup(&k2), Some(Err("broken".to_string())));
    assert_eq!(cache.parses, 2);
    assert_eq!(cache.hits, 3);
}

#[test]
fn test_virtual_edge_lists_the_overrides() {
    let site = call_site("value.target()", "target", 4, 5);
    let key = CompilationKey("k1".to_string());
    let caller = fallback_symbol(&candidate("invoke", None, None, CandidateSymbolKind::Function));
    let base = fallback_symbol(&candidate("target", Some("Base::"), None, CandidateSymbolKind::Method));
    let derived = fallback_symbol(&candidate("target", Some("Derived::"), None, CandidateSymbolKind::Method));
    let e = verified_edge(5, &site, &key, &caller, Some(base.clone()), true, vec![derived.clone()]);
    assert_eq!(e.kind, CallKind::Virtual);
    assert_eq!(e.confidence, Confidence::Possible);
    let (_, ev) = &e.evidence_by_context.vals[0];
    assert_eq!(ev.reason, VerificationReason::MultipleRuntimeTargets);
    let names: Vec<String> = ev.candidate_targets.iter().map(|s| s.display_name().to_string()).collect();
    assert_eq!(names, vec!["Base::target".to_string(), "Derived::target".to_string()]);
    let direct = verified_edge(6, &site, &key, &caller, Some(base.clone()), false, vec![derived]);
    assert_eq!(direct.evidence_by_context.vals[0].1.candidate_targets.len(), 1);
}
