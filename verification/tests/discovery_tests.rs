use calljet::compile_db::CompilationDb;
use calljet::discovery::{name_key_code, DiscoveryIndex, NameKey, SourceFile};
use calljet::extract::{detect_language, file_contains_spelling, is_identifier_byte};
use calljet::model::{CandidateCallKind, CandidateSymbolId, CandidateSymbolKind, Language, Symbol, SymbolId, SymbolQuery};
use calljet::project::{ProjectContext, RootState};

fn project() -> ProjectContext {
    ProjectContext::open("/r".to_string(), RootState::Resolved("/r".to_string()), CompilationDb::new()).unwrap()
}

fn file(name: &str, code: &str) -> SourceFile {
    SourceFile { path: format!("/r/{name}"), contents: Some(code.as_bytes().to_vec()) }
}

#[test]
fn test_discovery_c_plain_functions_and_calls() {
    let c_code = r#"
        #include <stdio.h>

        void callee_func() {
            printf("inside callee\n");
        }

        void caller_func() {
            callee_func();
        }

        int main() {
            caller_func();
            return 0;
        }
    "#;
    let project = project();
    let index = DiscoveryIndex::build(&project, vec![file("main.c", c_code)]);

    let query_callee = SymbolQuery::parse("callee_func");
    let callee_syms = index.matching_symbols(&query_callee);
    assert_eq!(callee_syms.len(), 1);

    let query_caller = SymbolQuery::parse("caller_func");
    let caller_syms = index.matching_symbols(&query_caller);
    assert_eq!(caller_syms.len(), 1);

    let caller_sym_id = caller_syms[0];
    let caller_sym = index.symbol(caller_sym_id).unwrap();
    assert_eq!(caller_sym.name, "caller_func");
    assert_eq!(caller_sym.language, Language::C);
    assert_eq!(caller_sym.syntactic_kind, CandidateSymbolKind::Function);

    let caller_callees = index.candidate_callees(caller_sym_id);
    assert!(!caller_callees.is_empty());
    let call_site = index.call(caller_callees[0]).unwrap();
    assert_eq!(call_site.callee_spelling, "callee_func");
    assert_eq!(call_site.syntax_hint, CandidateCallKind::Direct);

    let dummy_target_symbol = Symbol {
        id: SymbolId::clang_usr(Language::C, "c:@F@callee_func"),
        name: "callee_func".to_string(),
        qualified_name: None,
        namespace: None,
        class_name: None,
        signature: None,
        declaration: None,
        definition: None,
    };
    let reverse_calls = index.candidate_callers(&dummy_target_symbol);
    assert!(!reverse_calls.is_empty());
    let reverse_call_site = index.call(reverse_calls[0]).unwrap();
    assert_eq!(reverse_call_site.caller, caller_sym_id);
}

#[test]
fn test_discovery_cpp_namespaces_classes_and_methods() {
    let cpp_code = r#"
        namespace Core {
            namespace Net {
                class Socket {
                public:
                    void connect(const char* host);
                    void sendData() {
                        connect("127.0.0.1");
                    }
                };
            }

            void launch() {
                Net::Socket sock;
                sock.sendData();
            }
        }
    "#;
    let project = project();
    let index = DiscoveryIndex::build(&project, vec![file("engine.cpp", cpp_code)]);

    let connect_candidates = index.matching_symbols(&SymbolQuery::parse("Core::Net::Socket::connect"));
    assert!(!connect_candidates.is_empty());

    let send_candidates = index.matching_symbols(&SymbolQuery::parse("sendData"));
    assert!(!send_candidates.is_empty());
    let send_sym = index.symbol(send_candidates[0]).unwrap();
    assert_eq!(send_sym.name, "sendData");
    assert_eq!(send_sym.qualifier_hint, Some("Core::Net::Socket::".to_string()));
    assert_eq!(send_sym.owner_hint, Some("Socket".to_string()));

    let launch_candidates = index.matching_symbols(&SymbolQuery::parse("Core::launch"));
    assert!(!launch_candidates.is_empty());
    let launch_id = launch_candidates[0];
    assert_eq!(index.symbol(launch_id).unwrap().syntactic_kind, CandidateSymbolKind::Function);

    let launch_calls = index.candidate_callees(launch_id);
    let member_call = launch_calls
        .iter()
        .map(|id| index.call(*id).unwrap())
        .find(|c| c.callee_spelling == "sendData")
        .expect("the member call must be found");
    assert_eq!(member_call.syntax_hint, CandidateCallKind::Member);
    let expression_point = member_call.expression.start.point.unwrap();
    let callee_point = member_call.callee_location.as_ref().and_then(|location| location.point).unwrap();
    assert_eq!(callee_point.line, expression_point.line);
    assert!(callee_point.column > expression_point.column);
}

#[test]
fn test_discovery_overloaded_functions() {
    let cpp_code = r#"
        void compute(int x) {}
        void compute(double y) {}
        void run() {
            compute(42);
            compute(3.14);
        }
    "#;
    let project = project();
    let index = DiscoveryIndex::build(&project, vec![file("overload.cpp", cpp_code)]);
    let compute_candidates = index.matching_symbols(&SymbolQuery::parse("compute"));
    assert_eq!(compute_candidates.len(), 2);
    assert_ne!(compute_candidates[0], compute_candidates[1]);
}

#[test]
fn test_discovery_malformed_source_handling() {
    let broken_code = r#"
        void valid_func() {
            printf("ok");
        }

        void broken_func( {
            ??? !!!
        }

        void another_valid() {
            valid_func();
        }
    "#;
    let project = project();
    let index = DiscoveryIndex::build(&project, vec![file("broken.cpp", broken_code)]);
    assert!(!index.matching_symbols(&SymbolQuery::parse("valid_func")).is_empty());
}

#[test]
fn test_query_discovery_parses_only_text_prefilter_matches() {
    let project = project();
    let files = vec![
        file("target.cpp", "void target_method() {}\n"),
        file("unrelated_a.cpp", "void unrelated_alpha() {}\n"),
        file("unrelated_b.cpp", "void unrelated_beta() {}\n"),
    ];
    let mut index = DiscoveryIndex::with_catalog(files);
    assert!(index.source_files.is_empty());

    let query = SymbolQuery::parse("target_method");
    index.discover_query(&project, &query);

    assert_eq!(index.source_files_inspected, 3);
    assert_eq!(index.source_files.len(), 1);
    assert_eq!(index.source_files[0], "/r/target.cpp");
    assert_eq!(index.matching_symbols(&query).len(), 1);
}

#[test]
fn test_build_counts_every_file_as_inspected() {
    let project = project();
    let index = DiscoveryIndex::build(&project, vec![file("a.c", "void a() {}\n"), file("b.c", "void b() { a(); }\n")]);
    assert_eq!(index.source_files_inspected, 2);
    assert_eq!(index.source_files, vec!["/r/a.c".to_string(), "/r/b.c".to_string()]);
    assert_eq!(index.symbols.len(), 2);
    assert_eq!(index.calls.len(), 1);
}

#[test]
fn test_text_prefilter_matches_whole_identifiers() {
    assert!(file_contains_spelling(b"void leaf() {}", "leaf"));
    assert!(!file_contains_spelling(b"void leafy() {}", "leaf"));
    assert!(!file_contains_spelling(b"void my_leaf() {}", "leaf"));
    assert!(file_contains_spelling(b"x = leaf;", "leaf"));
    assert!(!file_contains_spelling(b"", "leaf"));
    assert!(is_identifier_byte(b'_'));
    assert!(is_identifier_byte(b'Z'));
    assert!(is_identifier_byte(b'7'));
    assert!(!is_identifier_byte(b'('));
}

#[test]
fn test_detect_language_by_extension() {
    assert_eq!(detect_language("src/a.c"), Language::C);
    assert_eq!(detect_language("src/a.h"), Language::C);
    assert_eq!(detect_language("src/a.cpp"), Language::Cpp);
    assert_eq!(detect_language("Makefile"), Language::Cpp);
}

#[test]
fn test_discover_spelling_parses_mentions_once_and_keeps_earlier_parses() {
    let project = project();
    let files = vec![
        file("a.c", "void alpha() { beta(); }\n"),
        file("b.c", "void beta() {}\n"),
        file("c.c", "void gamma() {}\n"),
    ];
    let mut index = DiscoveryIndex::with_catalog(files);
    index.discover_spelling(&project, "  beta ");
    assert!(index.is_parsed("/r/a.c"));
    assert!(index.is_parsed("/r/b.c"));
    assert!(!index.is_parsed("/r/c.c"));
    assert_eq!(index.source_files_inspected, 3);
    index.discover_spelling(&project, "beta");
    assert_eq!(index.source_files_inspected, 3);
    index.discover_spelling(&project, "   ");
    assert_eq!(index.source_files_inspected, 3);
    index.discover_spelling(&project, "gamma");
    assert_eq!(index.source_files_inspected, 6);
    assert!(index.is_parsed("/r/a.c"));
    assert!(index.is_parsed("/r/c.c"));
    assert_eq!(index.source_files.len(), 3);
}

#[test]
fn test_candidate_callers_bare_then_qualified_each_once() {
    let project = project();
    let files = vec![file("q.cpp", "namespace A { void f() {} }\nvoid g() { f(); A::f(); A::f(); }\n")];
    let mut index = DiscoveryIndex::with_catalog(files);
    index.discover_query(&project, &SymbolQuery::parse("f"));
    let target = Symbol {
        id: SymbolId::clang_usr(Language::Cpp, "c:@N@A@F@f#"),
        name: "f".to_string(),
        qualified_name: Some("A::f".to_string()),
        namespace: Some("A".to_string()),
        class_name: None,
        signature: None,
        declaration: None,
        definition: None,
    };
    let calls = index.candidate_callers(&target);
    assert_eq!(calls.len(), 3);
    assert_eq!(index.call(calls[0]).unwrap().qualifier_hint, None);
    assert_eq!(index.call(calls[1]).unwrap().qualifier_hint, Some("A::".to_string()));
    assert_eq!(index.call(calls[2]).unwrap().qualifier_hint, Some("A::".to_string()));
    assert!(calls[1] != calls[2]);
    let unqualified = Symbol { qualified_name: None, ..target };
    assert_eq!(index.candidate_callers(&unqualified).len(), 1);
}

#[test]
fn test_matching_symbols_on_a_hand_built_index() {
    let mut idx = DiscoveryIndex::with_catalog(Vec::new());
    let bare: Option<String> = None;
    let qual: Option<String> = Some("A::".to_string());
    idx.symbols_by_name.insert(name_key_code("f", &bare),
        (NameKey { terminal_name: "f".to_string(), qualifier: None }, vec![CandidateSymbolId(1), CandidateSymbolId(2)]));
    idx.symbols_by_name.insert(name_key_code("f", &qual),
        (NameKey { terminal_name: "f".to_string(), qualifier: qual.clone() }, vec![CandidateSymbolId(2)]));
    assert_eq!(idx.matching_symbols(&SymbolQuery::parse("A::f")).to_vec(), vec![CandidateSymbolId(2)]);
    assert_eq!(idx.matching_symbols(&SymbolQuery::parse("B::f")).to_vec(), vec![CandidateSymbolId(1), CandidateSymbolId(2)]);
    assert!(idx.matching_symbols(&SymbolQuery::parse("g")).is_empty());
}
