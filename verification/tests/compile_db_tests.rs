use calljet::compile_db::{calculate_hash, normalize_compiler_args, shlex_split, validate_entry, CompilationDb, DatabaseFile, RawCompileEntry};
use calljet::diagnostic::{AnalysisCause, Diagnostic, InputError};

fn entry(directory: Option<&str>, file: Option<&str>, command: Option<&str>, arguments: Option<Vec<&str>>) -> RawCompileEntry {
    RawCompileEntry {
        directory: directory.map(|s| s.to_string()),
        file: file.map(|s| s.to_string()),
        command: command.map(|s| s.to_string()),
        arguments: arguments.map(|v| v.into_iter().map(|s| s.to_string()).collect()),
        output: None,
    }
}

/// Loads entries as the command line does for directories that need no
/// normalization: the file goes under the directory.
fn load(entries: Vec<RawCompileEntry>) -> CompilationDb {
    let (mut db, rest) = CompilationDb::begin_load("/proj/compile_commands.json", DatabaseFile::Entries(entries)).unwrap();
    for (index, e) in rest.into_iter().enumerate() {
        match validate_entry(e, index) {
            Ok(valid) => {
                let dir = valid.directory.clone();
                let file = valid.file_path(&dir);
                db.add_entry(Ok(valid.into_context(dir, file)));
            },
            Err(d) => db.add_entry(Err(d)),
        }
    }
    db
}

#[test]
fn test_missing_compile_commands() {
    let missing_path = "/tmp/nowhere/compile_commands.json";
    let result = CompilationDb::begin_load(missing_path, DatabaseFile::Missing);
    assert!(result.is_err());
    match result.unwrap_err() {
        InputError::InvalidCompilationDatabase { path, reason } => {
            assert_eq!(path, missing_path);
            assert!(reason.contains("존재하지 않습니다"));
        },
        err => panic!("unexpected error: {err:?}"),
    }
}

#[test]
fn test_malformed_json_compile_commands() {
    let result = CompilationDb::begin_load("db.json", DatabaseFile::Malformed("key must be a string at line 1 column 3".to_string()));
    match result.unwrap_err() {
        InputError::InvalidCompilationDatabase { reason, .. } => {
            assert!(reason.contains("JSON"));
            assert_eq!(reason, "JSON 형식이 올바르지 않습니다: key must be a string at line 1 column 3");
        },
        err => panic!("unexpected error: {err:?}"),
    }
}

#[test]
fn test_unreadable_compile_commands() {
    let result = CompilationDb::begin_load("db.json", DatabaseFile::Unreadable("permission denied".to_string()));
    match result.unwrap_err() {
        InputError::InvalidCompilationDatabase { path, reason } => {
            assert_eq!(path, "db.json");
            assert_eq!(reason, "파일을 읽을 수 없습니다: permission denied");
        },
        err => panic!("unexpected error: {err:?}"),
    }
}

#[test]
fn test_valid_compile_commands_with_multiple_contexts() {
    let db = load(vec![
        entry(Some("/proj"), Some("src/main.cpp"), Some("clang++ -DFEATURE_A -Iinclude -c src/main.cpp -o src/main.o"), None),
        entry(Some("/proj"), Some("src/main.cpp"), None,
            Some(vec!["clang++", "-DFEATURE_B", "-Iinclude", "-c", "src/main.cpp", "-o", "src/main.o"])),
        entry(Some("/proj"), Some("src/helper.cpp"), Some("clang++ -Iinclude -c src/helper.cpp -o src/helper.o"), None),
        entry(Some("/proj"), Some("src/helper.cpp"), Some("clang++ -Iinclude -c src/helper.cpp -o src/helper.o"), None),
    ]);

    let main_contexts = db.contexts_for_source("/proj/src/main.cpp");
    assert_eq!(main_contexts.len(), 2);
    assert_ne!(main_contexts[0].key, main_contexts[1].key);

    let args_0 = &main_contexts[0].clang_args;
    let args_1 = &main_contexts[1].clang_args;
    assert!(args_0.contains(&"-DFEATURE_A".to_string()));
    assert!(args_0.contains(&"-Iinclude".to_string()));
    assert!(!args_0.contains(&"-o".to_string()));
    assert!(!args_0.contains(&"-c".to_string()));
    assert!(args_1.contains(&"-DFEATURE_B".to_string()));

    let helper_contexts = db.contexts_for_source("/proj/src/helper.cpp");
    assert_eq!(helper_contexts.len(), 1);

    let key = main_contexts[0].key.clone();
    let found = db.context_by_key(&key).unwrap();
    assert_eq!(found.source_file, "/proj/src/main.cpp");
    assert_eq!(db.all_source_files(), vec!["/proj/src/helper.cpp".to_string(), "/proj/src/main.cpp".to_string()]);
}

#[test]
fn test_unusable_entry_diagnostics() {
    let db = load(vec![
        entry(None, Some("src/main.cpp"), Some("clang++ src/main.cpp"), None),
        entry(Some("/proj"), None, Some("clang++ src/main.cpp"), None),
        entry(Some("/proj"), Some("src/main.cpp"), None, None),
    ]);
    assert_eq!(db.diagnostics.len(), 3);
    assert!(db.all_source_files().is_empty());
}

#[test]
fn test_entry_diagnostic_names_the_entry_and_cause() {
    match validate_entry(entry(Some("/proj"), Some("a.c"), Some("   "), None), 4) {
        Err(Diagnostic::Analysis(issue)) => {
            assert_eq!(issue.message, "엔트리 #4: 컴파일러 인자가 비어 있습니다.");
            assert_eq!(issue.cause, AnalysisCause::Other("EmptyArguments".to_string()));
        },
        other => panic!("unexpected: {other:?}"),
    }
    match validate_entry(entry(Some("  "), Some("a.c"), Some("cc a.c"), None), 0) {
        Err(Diagnostic::Analysis(issue)) => {
            assert_eq!(issue.cause, AnalysisCause::Other("MissingDirectoryField".to_string()));
        },
        other => panic!("unexpected: {other:?}"),
    }
}

#[test]
fn test_empty_database_is_recoverable() {
    let (db, rest) = CompilationDb::begin_load("db.json", DatabaseFile::Entries(Vec::new())).unwrap();
    assert!(rest.is_empty());
    assert_eq!(db.diagnostics.len(), 1);
    match &db.diagnostics[0] {
        Diagnostic::Analysis(issue) => {
            assert_eq!(issue.message, "compile_commands.json이 비어 있습니다.");
            assert_eq!(issue.cause, AnalysisCause::Other("EmptyCompilationDatabase".to_string()));
        },
        other => panic!("unexpected: {other:?}"),
    }
}

#[test]
fn test_failed_database_recovers_as_empty() {
    let err = InputError::InvalidCompilationDatabase { path: "x".to_string(), reason: "y".to_string() };
    let db = CompilationDb::or_empty(Err(err.clone()));
    assert!(db.all_source_files().is_empty());
    assert_eq!(db.diagnostics, vec![Diagnostic::Input(err)]);
}

#[test]
fn test_shlex_split_quotes_and_escapes() {
    assert_eq!(shlex_split("clang++  -c 'a b.c' \"-DX=1 2\" c\\ d"),
        vec!["clang++", "-c", "a b.c", "-DX=1 2", "c d"]);
    assert_eq!(shlex_split(""), Vec::<String>::new());
    assert_eq!(shlex_split("  \t "), Vec::<String>::new());
}

#[test]
fn test_normalize_compiler_args_drops_outputs_and_steps() {
    let raw: Vec<String> = ["clang++", "-std=c++17", "-c", "src/a.cpp", "-o", "a.o", "-MD", "-MF", "a.d", "-Iinc", "-obj.o"]
        .iter().map(|s| s.to_string()).collect();
    let args = normalize_compiler_args(&raw, "src/a.cpp");
    assert_eq!(args, vec!["-std=c++17".to_string(), "-Iinc".to_string()]);
}

#[test]
fn test_calculate_hash_is_deterministic() {
    assert_eq!(calculate_hash("a|b|c"), calculate_hash("a|b|c"));
    assert_ne!(calculate_hash("a|b|c"), calculate_hash("a|b|d"));
}

#[test]
fn test_normalize_compiler_args_drops_lone_compiler() {
    let raw: Vec<String> = vec!["clang++".to_string()];
    assert_eq!(normalize_compiler_args(&raw, "src/main.cpp"), Vec::<String>::new());
}
