//! The command line: its commands and options as plain values, and the plan a
//! parsed command line gives: the project to load, the request to run and how
//! to render the result.
use vstd::prelude::*;
use crate::diagnostic::InputError;
use crate::model::{QueryRequest, SymbolQuery};
use crate::render::{OutputFormat, RenderOptions};
use crate::paths::{join, join_spec};
use crate::text::push_str;

verus! {

/// A parsed command line.
#[derive(Debug)]
pub struct Cli {
    /// The command to run
    pub command: Commands,
}

/// Options every command takes.
#[derive(Debug, Clone)]
pub struct CommonOptions {
    /// Source root (the current directory when absent)
    pub root: Option<String>,
    /// Compilation database (`<root>/compile_commands.json` when absent)
    pub compile_commands: Option<String>,
    /// Output format
    pub format: OutputFormat,
    /// File to write the result to
    pub output: Option<String>,
    /// Whether to show timing and cost metrics
    pub metrics: bool,
    /// Whether to show aggregate progress
    pub progress: bool,
    /// How many times `-v` was given
    pub verbose: u8,
}

/// Options of the traversing commands.
#[derive(Debug, Clone)]
pub struct TraversalOptions {
    /// Depth limit (unbounded when absent)
    pub max_depth: Option<usize>,
    /// Keep only confirmed edges
    pub verified_only: bool,
    /// Leave unresolved edges out of the output
    pub no_unresolved: bool,
    /// Leave calls across a foreign boundary out of the output
    pub no_foreign: bool,
}

/// The commands.
#[derive(Debug, Clone)]
pub enum Commands {
    /// Paths from the top-level callers down to one method
    Trace { target: String, common: CommonOptions, traversal: TraversalOptions },
    /// Callers of a symbol
    Callers { target: String, common: CommonOptions, traversal: TraversalOptions },
    /// Callees of a symbol
    Callees { source: String, common: CommonOptions, traversal: TraversalOptions },
    /// A path between two symbols
    Path { source: String, target: String, common: CommonOptions, traversal: TraversalOptions },
    /// The edges between a caller and a callee, with their evidence
    Explain { caller: String, callee: String, common: CommonOptions },
}

/// Where the project to analyse is.
#[derive(Debug, Clone)]
pub struct ProjectInput {
    /// Source root directory
    pub source_root: String,
    /// Compilation database file
    pub compile_commands_path: String,
}

/// The request a command asks for, its queries parsed.
pub open spec fn request_matches(c: Commands, r: QueryRequest) -> bool {
    match c {
        Commands::Trace { target, traversal, .. } => r matches QueryRequest::Trace { target: q, max_depth, verified_only }
            && q.parsed_from(target@) && max_depth == traversal.max_depth && verified_only == traversal.verified_only,
        Commands::Callers { target, traversal, .. } => r matches QueryRequest::Callers { target: q, max_depth, verified_only }
            && q.parsed_from(target@) && max_depth == traversal.max_depth && verified_only == traversal.verified_only,
        Commands::Callees { source, traversal, .. } => r matches QueryRequest::Callees { source: q, max_depth, verified_only }
            && q.parsed_from(source@) && max_depth == traversal.max_depth && verified_only == traversal.verified_only,
        Commands::Path { source, target, traversal, .. } => r matches QueryRequest::Path { source: a, target: b, max_depth, verified_only }
            && a.parsed_from(source@) && b.parsed_from(target@)
            && max_depth == traversal.max_depth && verified_only == traversal.verified_only,
        Commands::Explain { caller, callee, .. } => r matches QueryRequest::Explain { caller: a, callee: b }
            && a.parsed_from(caller@) && b.parsed_from(callee@),
    }
}

/// The common options of a command.
pub open spec fn common_of(c: Commands) -> CommonOptions {
    match c {
        Commands::Trace { common, .. } => common,
        Commands::Callers { common, .. } => common,
        Commands::Callees { common, .. } => common,
        Commands::Path { common, .. } => common,
        Commands::Explain { common, .. } => common,
    }
}

/// The output filters of a command: none for `explain`.
pub open spec fn filters_of(c: Commands) -> (bool, bool) {
    match c {
        Commands::Trace { traversal, .. } => (traversal.no_unresolved, traversal.no_foreign),
        Commands::Callers { traversal, .. } => (traversal.no_unresolved, traversal.no_foreign),
        Commands::Callees { traversal, .. } => (traversal.no_unresolved, traversal.no_foreign),
        Commands::Path { traversal, .. } => (traversal.no_unresolved, traversal.no_foreign),
        Commands::Explain { .. } => (false, false),
    }
}

/// What the error says when the current directory is unknown.
pub open spec fn cwd_reason(e: Seq<char>) -> Seq<char> {
    "현재 작업 디렉토리를 가져올 수 없습니다: "@ + e
}

/// The project input of a command line run from `current_dir`: the root
/// given, else the current directory; the database given, else
/// `compile_commands.json` under the root.
pub open spec fn input_ok(cli: Cli, current_dir: Result<String, String>, input: ProjectInput) -> bool {
    let common = common_of(cli.command);
    let root = match common.root {
        Some(p) => p@,
        None => match current_dir { Ok(d) => d@, Err(_) => Seq::empty() },
    };
    &&& input.source_root@ == root
    &&& input.compile_commands_path@ == match common.compile_commands {
        Some(p) => p@,
        None => join_spec(root, "compile_commands.json"@),
    }
}

/// The render options of a command line: its common options and its filters.
pub open spec fn options_ok(cli: Cli, o: RenderOptions) -> bool {
    let common = common_of(cli.command);
    &&& o.format == common.format
    &&& crate::discovery::opt_view(o.output_file) == crate::discovery::opt_view(common.output)
    &&& o.verbosity == common.verbose
    &&& o.show_metrics == common.metrics
    &&& o.progress == common.progress
    &&& (o.no_unresolved, o.no_foreign) == filters_of(cli.command)
}

/// The plan of a command line run from `current_dir`.
pub open spec fn plan_ok(cli: Cli, current_dir: Result<String, String>, r: (ProjectInput, QueryRequest, RenderOptions)) -> bool {
    &&& input_ok(cli, current_dir, r.0)
    &&& request_matches(cli.command, r.1)
    &&& options_ok(cli, r.2)
}

fn parse_request(command: Commands) -> (r: (QueryRequest, CommonOptions, bool, bool))
    ensures
        request_matches(command, r.0),
        r.1 == common_of(command),
        (r.2, r.3) == filters_of(command),
{
    match command {
        Commands::Trace { target, common, traversal } => (
            QueryRequest::Trace {
                target: SymbolQuery::parse(target.as_str()),
                max_depth: traversal.max_depth,
                verified_only: traversal.verified_only,
            },
            common,
            traversal.no_unresolved,
            traversal.no_foreign,
        ),
        Commands::Callers { target, common, traversal } => (
            QueryRequest::Callers {
                target: SymbolQuery::parse(target.as_str()),
                max_depth: traversal.max_depth,
                verified_only: traversal.verified_only,
            },
            common,
            traversal.no_unresolved,
            traversal.no_foreign,
        ),
        Commands::Callees { source, common, traversal } => (
            QueryRequest::Callees {
                source: SymbolQuery::parse(source.as_str()),
                max_depth: traversal.max_depth,
                verified_only: traversal.verified_only,
            },
            common,
            traversal.no_unresolved,
            traversal.no_foreign,
        ),
        Commands::Path { source, target, common, traversal } => (
            QueryRequest::Path {
                source: SymbolQuery::parse(source.as_str()),
                target: SymbolQuery::parse(target.as_str()),
                max_depth: traversal.max_depth,
                verified_only: traversal.verified_only,
            },
            common,
            traversal.no_unresolved,
            traversal.no_foreign,
        ),
        Commands::Explain { caller, callee, common } => (
            QueryRequest::Explain {
                caller: SymbolQuery::parse(caller.as_str()),
                callee: SymbolQuery::parse(callee.as_str()),
            },
            common,
            false,
            false,
        ),
    }
}

impl Cli {
    /// The project input, the request and the render options of a command line
    /// run from `current_dir` (its error text when it could not be determined):
    /// the root defaults to the current directory and the database to
    /// `compile_commands.json` under the root. Fails when the current directory
    /// is unknown.
    pub fn into_execution_plan(self, current_dir: Result<String, String>) -> (r: Result<(ProjectInput, QueryRequest, RenderOptions), InputError>)
        ensures
            current_dir is Ok <==> r is Ok,
            r matches Ok(plan) ==> plan_ok(self, current_dir, plan),
            current_dir matches Err(e) ==> (r matches Err(InputError::IoError { path, reason })
                && path@ == "."@ && reason@ == cwd_reason(e@)),
    {
        let ghost cli = self;
        let (request, common, no_unresolved, no_foreign) = parse_request(self.command);
        let render_options = RenderOptions {
            format: common.format,
            output_file: common.output,
            verbosity: common.verbose,
            show_metrics: common.metrics,
            progress: common.progress,
            no_unresolved,
            no_foreign,
        };
        let cwd = match current_dir {
            Ok(d) => d,
            Err(e) => {
                let mut reason = "현재 작업 디렉토리를 가져올 수 없습니다: ".to_string();
                push_str(&mut reason, e.as_str());
                return Err(InputError::IoError { path: ".".to_string(), reason });
            },
        };
        let source_root = match common.root {
            Some(p) => p,
            None => cwd,
        };
        let compile_commands_path = match common.compile_commands {
            Some(p) => p,
            None => join(source_root.as_str(), "compile_commands.json"),
        };
        Ok((ProjectInput { source_root, compile_commands_path }, request, render_options))
    }

    /// The project input and the request of a command line run from
    /// `current_dir`, as [`Cli::into_execution_plan`] gives them.
    pub fn into_request(self, current_dir: Result<String, String>) -> (r: Result<(ProjectInput, QueryRequest), InputError>)
        ensures
            current_dir is Ok <==> r is Ok,
            r matches Ok(p) ==> input_ok(self, current_dir, p.0) && request_matches(self.command, p.1),
            current_dir matches Err(e) ==> (r matches Err(InputError::IoError { path, reason })
                && path@ == "."@ && reason@ == cwd_reason(e@)),
    {
        let ghost cli = self;
        match self.into_execution_plan(current_dir) {
            Ok((input, req, opts)) => {
                assert(plan_ok(cli, current_dir, (input, req, opts)));
                Ok((input, req))
            },
            Err(e) => Err(e),
        }
    }
}

} // verus!
