use calljet::cli::{Cli, Commands, CommonOptions, TraversalOptions};
use calljet::console::{missing_compilation_database_help, CALLJET_ASCII_ART};
use calljet::diagnostic::InputError;
use calljet::model::QueryRequest;
use calljet::render::OutputFormat;

fn common() -> CommonOptions {
    CommonOptions {
        root: None,
        compile_commands: None,
        format: OutputFormat::Text,
        output: None,
        metrics: false,
        progress: false,
        verbose: 0,
    }
}

fn traversal(max_depth: Option<usize>, verified_only: bool) -> TraversalOptions {
    TraversalOptions { max_depth, verified_only, no_unresolved: false, no_foreign: false }
}

fn cwd() -> Result<String, String> {
    Ok("/work".to_string())
}

#[test]
fn test_cli_trace_parsing() {
    let cli = Cli {
        command: Commands::Trace {
            target: "ns::Class::method".to_string(),
            common: common(),
            traversal: traversal(Some(8), false),
        },
    };

    let (_, req) = cli.into_request(cwd()).unwrap();
    if let QueryRequest::Trace { target, max_depth, verified_only } = req {
        assert_eq!(target.terminal_name, "method");
        assert_eq!(target.qualifier_hint, Some("ns::Class::".to_string()));
        assert_eq!(max_depth, Some(8));
        assert!(!verified_only);
    } else {
        panic!("unexpected request");
    }
}

#[test]
fn test_cli_callers_parsing() {
    let cli = Cli {
        command: Commands::Callers {
            target: "target_func".to_string(),
            common: common(),
            traversal: traversal(Some(5), true),
        },
    };
    if let Commands::Callers { target, traversal, .. } = &cli.command {
        assert_eq!(target, "target_func");
        assert_eq!(traversal.max_depth, Some(5));
        assert!(traversal.verified_only);
    } else {
        panic!("unexpected command");
    }

    let (_, req) = cli.into_request(cwd()).unwrap();
    if let QueryRequest::Callers { target, max_depth, verified_only } = req {
        assert_eq!(target.terminal_name, "target_func");
        assert_eq!(max_depth, Some(5));
        assert!(verified_only);
    } else {
        panic!("unexpected request");
    }
}

#[test]
fn test_cli_callees_parsing() {
    let cli = Cli {
        command: Commands::Callees {
            source: "ns::Class::method".to_string(),
            common: common(),
            traversal: traversal(None, false),
        },
    };
    let (_, req) = cli.into_request(cwd()).unwrap();
    if let QueryRequest::Callees { source, max_depth, verified_only } = req {
        assert_eq!(source.terminal_name, "method");
        assert_eq!(source.qualifier_hint, Some("ns::Class::".to_string()));
        assert_eq!(max_depth, None);
        assert!(!verified_only);
    } else {
        panic!("unexpected request");
    }
}

#[test]
fn test_cli_path_parsing() {
    let cli = Cli {
        command: Commands::Path {
            source: "start_fn".to_string(),
            target: "end_fn".to_string(),
            common: common(),
            traversal: traversal(Some(10), false),
        },
    };
    let (_, req) = cli.into_request(cwd()).unwrap();
    if let QueryRequest::Path { source, target, max_depth, verified_only } = req {
        assert_eq!(source.terminal_name, "start_fn");
        assert_eq!(target.terminal_name, "end_fn");
        assert_eq!(max_depth, Some(10));
        assert!(!verified_only);
    } else {
        panic!("unexpected request");
    }
}

#[test]
fn test_cli_explain_parsing() {
    let cli = Cli {
        command: Commands::Explain {
            caller: "caller_fn".to_string(),
            callee: "callee_fn".to_string(),
            common: common(),
        },
    };
    let (_, req) = cli.into_request(cwd()).unwrap();
    if let QueryRequest::Explain { caller, callee } = req {
        assert_eq!(caller.terminal_name, "caller_fn");
        assert_eq!(callee.terminal_name, "callee_fn");
    } else {
        panic!("unexpected request");
    }
}

#[test]
fn test_cli_rich_options_parsing() {
    let mut c = common();
    c.format = OutputFormat::Json;
    c.output = Some("output.json".to_string());
    c.metrics = true;
    c.verbose = 2;
    let cli = Cli {
        command: Commands::Callers {
            target: "target_fn".to_string(),
            common: c,
            traversal: TraversalOptions { max_depth: None, verified_only: false, no_unresolved: true, no_foreign: true },
        },
    };

    let (_, _, render_opts) = cli.into_execution_plan(cwd()).unwrap();
    assert_eq!(render_opts.format, OutputFormat::Json);
    assert_eq!(render_opts.output_file, Some("output.json".to_string()));
    assert!(render_opts.show_metrics);
    assert_eq!(render_opts.verbosity, 2);
    assert!(render_opts.no_unresolved);
    assert!(render_opts.no_foreign);
}

#[test]
fn test_cli_verbosity_count_and_long_option_compatibility() {
    let mut c = common();
    c.verbose = 1;
    let short = Cli {
        command: Commands::Callers { target: "target_fn".to_string(), common: c.clone(), traversal: traversal(None, false) },
    };
    let (_, _, short_options) = short.into_execution_plan(cwd()).unwrap();
    assert_eq!(short_options.verbosity, 1);
    assert!(!short_options.progress);

    c.verbose = 2;
    let repeated = Cli {
        command: Commands::Callers { target: "target_fn".to_string(), common: c, traversal: traversal(None, false) },
    };
    let (_, _, repeated_options) = repeated.into_execution_plan(cwd()).unwrap();
    assert_eq!(repeated_options.verbosity, 2);
}

#[test]
fn test_cli_progress_does_not_enable_verbose_result_output() {
    let mut c = common();
    c.progress = true;
    let cli = Cli {
        command: Commands::Trace { target: "target_fn".to_string(), common: c, traversal: traversal(None, false) },
    };
    let (_, _, options) = cli.into_execution_plan(cwd()).unwrap();

    assert!(options.progress);
    assert_eq!(options.verbosity, 0);
}

#[test]
fn test_calljet_ascii_art_is_a_wordmark() {
    assert!(CALLJET_ASCII_ART.contains("/ ____|"));
    assert!(CALLJET_ASCII_ART.contains("| |___|"));
    assert!(CALLJET_ASCII_ART.contains("\\_____\\__,_|_|_|"));
    assert!(CALLJET_ASCII_ART.contains("FIND THE PATH. SKIP THE WHOLE GRAPH."));
}

#[test]
fn test_missing_compilation_database_help_is_actionable() {
    let path = "project/compile_commands.json";
    let help = missing_compilation_database_help(path);

    assert!(help.contains("project/compile_commands.json"));
    assert!(help.contains("continuing with Tree-sitter candidates"));
    assert!(help.contains("Clang semantic verification is unavailable"));
    assert!(help.contains("-DCMAKE_EXPORT_COMPILE_COMMANDS=ON"));
    assert!(help.contains("--compile-commands build/compile_commands.json"));
}

#[test]
fn test_execution_plan_defaults_root_and_database() {
    let cli = Cli {
        command: Commands::Trace { target: "leaf".to_string(), common: common(), traversal: traversal(None, false) },
    };
    let (input, _, options) = cli.into_execution_plan(cwd()).unwrap();
    assert_eq!(input.source_root, "/work");
    assert_eq!(input.compile_commands_path, "/work/compile_commands.json");
    assert_eq!(options.format, OutputFormat::Text);
    assert_eq!(options.output_file, None);
}

#[test]
fn test_execution_plan_keeps_given_root_and_database() {
    let mut c = common();
    c.root = Some("proj".to_string());
    let cli = Cli {
        command: Commands::Callees { source: "main".to_string(), common: c.clone(), traversal: traversal(None, false) },
    };
    let (input, _, _) = cli.into_execution_plan(cwd()).unwrap();
    assert_eq!(input.source_root, "proj");
    assert_eq!(input.compile_commands_path, "proj/compile_commands.json");

    c.compile_commands = Some("/abs/db.json".to_string());
    let cli = Cli {
        command: Commands::Callees { source: "main".to_string(), common: c, traversal: traversal(None, false) },
    };
    let (input, _, _) = cli.into_execution_plan(cwd()).unwrap();
    assert_eq!(input.compile_commands_path, "/abs/db.json");
}

#[test]
fn test_execution_plan_explain_has_no_filters() {
    let cli = Cli {
        command: Commands::Explain { caller: "a".to_string(), callee: "b".to_string(), common: common() },
    };
    let (_, _, options) = cli.into_execution_plan(cwd()).unwrap();
    assert!(!options.no_unresolved);
    assert!(!options.no_foreign);
}

#[test]
fn test_execution_plan_fails_without_current_directory() {
    let cli = Cli {
        command: Commands::Trace { target: "leaf".to_string(), common: common(), traversal: traversal(None, false) },
    };
    match cli.into_execution_plan(Err("denied".to_string())) {
        Err(InputError::IoError { path, reason }) => {
            assert_eq!(path, ".");
            assert_eq!(reason, "현재 작업 디렉토리를 가져올 수 없습니다: denied");
        },
        other => panic!("unexpected: {other:?}"),
    }
}
