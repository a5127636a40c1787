//! Diagnostics and errors.
use vstd::prelude::*;
use crate::model::{CompilationKey, SourceLocation};
use crate::text::push_str;

verus! {

/// Severity of a diagnostic.
#[derive(Debug, Clone, Copy, PartialEq, Eq, Structural)]
pub enum Severity {
    /// Fatal error
    Fatal,
    /// Recoverable issue
    Recoverable,
}

/// Internal error.
#[derive(Debug, Clone, PartialEq, Eq)]
pub enum InternalError {
    /// Invariant violation
    InvariantViolation(String),
    /// Other internal error
    Other(String),
}

/// Input validation error.
#[derive(Debug, Clone, PartialEq, Eq)]
pub enum InputError {
    /// The source root is absent or not a directory
    InvalidSourceRoot { path: String, reason: String },
    /// The compilation database is absent, unreadable or malformed
    InvalidCompilationDatabase { path: String, reason: String },
    /// Invalid command-line argument
    InvalidCliArgument { argument: String, reason: String },
    /// I/O error
    IoError { path: String, reason: String },
}

/// Query target error.
#[derive(Debug, Clone, PartialEq, Eq)]
pub enum QueryError {
    /// No symbol matches
    SymbolNotFound { query: String },
    /// Several symbols match
    AmbiguousSymbol { query: String, candidates: Vec<String> },
    /// No edge between the symbols (explain)
    EdgeNotFound { caller: String, callee: String },
}

/// Cause of an analysis issue.
#[derive(Debug, Clone, PartialEq, Eq)]
pub enum AnalysisCause {
    /// A translation unit failed to parse
    TranslationUnitParseFailed,
    /// No compilation context for semantic verification
    MissingCompilationContext,
    /// A source file could not be read
    SourceReadFailed,
    /// Other
    Other(String),
}

/// An issue met during analysis.
#[derive(Debug, Clone, PartialEq, Eq)]
pub struct AnalysisIssue {
    /// Severity
    pub severity: Severity,
    /// Compilation context concerned
    pub context: Option<CompilationKey>,
    /// Source location concerned
    pub location: Option<SourceLocation>,
    /// Message
    pub message: String,
    /// Cause
    pub cause: AnalysisCause,
}

/// Any diagnostic.
#[derive(Debug, Clone, PartialEq, Eq)]
pub enum Diagnostic {
    /// Input error
    Input(InputError),
    /// Query error
    Query(QueryError),
    /// Analysis issue
    Analysis(Box<AnalysisIssue>),
    /// Internal error
    Internal(InternalError),
}

impl Diagnostic {
    /// A diagnostic from an analysis issue.
    pub fn analysis(issue: AnalysisIssue) -> (r: Self)
        ensures
            r == Diagnostic::Analysis(Box::new(issue)),
    {
        Diagnostic::Analysis(Box::new(issue))
    }
}

/// A fatal query failure.
#[derive(Debug, Clone, PartialEq, Eq)]
pub enum FatalError {
    /// Input validation failed
    Input(InputError),
    /// The target symbol could not be identified
    Query(QueryError),
    /// Internal invariant violation
    Internal(InternalError),
    /// Analysis failed entirely
    AnalysisFailed(String),
}


/// The items joined with `sep` between consecutive ones.
pub open spec fn join_with(items: Seq<Seq<char>>, sep: Seq<char>) -> Seq<char>
    decreases items.len(),
{
    if items.len() == 0 {
        Seq::empty()
    } else if items.len() == 1 {
        items[0]
    } else {
        join_with(items.drop_last(), sep) + sep + items.last()
    }
}

/// The strings joined with `sep` between consecutive ones.
pub fn join_strings(items: &[String], sep: &str) -> (r: String)
    ensures
        r@ == join_with(items@.map_values(|x: String| x@), sep@),
{
    let mut out = String::new();
    let n = items.len();
    let mut i: usize = 0;
    while i < n
        invariant
            n == items@.len(),
            i <= n,
            out@ == join_with(items@.take(i as int).map_values(|x: String| x@), sep@),
        decreases n - i,
    {
        let ghost prev = items@.take(i as int).map_values(|x: String| x@);
        if i > 0 {
            push_str(&mut out, sep);
        }
        push_str(&mut out, items[i].as_str());
        proof {
            let next = items@.take(i + 1).map_values(|x: String| x@);
            assert(next.drop_last() =~= prev);
            assert(next.last() == items@[i as int]@);
            if i == 0 {
                assert(prev.len() == 0);
                assert(out@ =~= items@[0]@);
            }
        }
        i = i + 1;
    }
    proof {
        assert(items@.take(n as int) =~= items@);
    }
    out
}

impl Severity {
    /// The variant name: `Fatal` or `Recoverable`.
    pub open spec fn text(self) -> Seq<char> {
        match self {
            Severity::Fatal => "Fatal"@,
            Severity::Recoverable => "Recoverable"@,
        }
    }

    /// The variant name: `Fatal` or `Recoverable`.
    pub fn to_string(&self) -> (r: String)
        ensures
            r@ == self.text(),
    {
        match self {
            Severity::Fatal => "Fatal".to_string(),
            Severity::Recoverable => "Recoverable".to_string(),
        }
    }
}

impl InternalError {
    /// The message of the error.
    pub open spec fn text(self) -> Seq<char> {
        match self {
            InternalError::InvariantViolation(m) => "내부 불변식 위반(Invariant Violation): "@ + m@,
            InternalError::Other(m) => "내부 오류(Internal Error): "@ + m@,
        }
    }

    /// The message of the error.
    pub fn to_string(&self) -> (r: String)
        ensures
            r@ == self.text(),
    {
        match self {
            InternalError::InvariantViolation(m) => {
                let mut s = "내부 불변식 위반(Invariant Violation): ".to_string();
                push_str(&mut s, m.as_str());
                s
            },
            InternalError::Other(m) => {
                let mut s = "내부 오류(Internal Error): ".to_string();
                push_str(&mut s, m.as_str());
                s
            },
        }
    }
}

impl InputError {
    /// The message of the error: what went wrong, the path or argument in
    /// quotes, and the reason.
    pub open spec fn text(self) -> Seq<char> {
        match self {
            InputError::InvalidSourceRoot { path, reason } =>
                "유효하지 않은 소스 루트(Invalid Source Root) '"@ + path@ + "': "@ + reason@,
            InputError::InvalidCompilationDatabase { path, reason } =>
                "유효하지 않은 컴파일 데이터베이스(Invalid Compilation DB) '"@ + path@ + "': "@ + reason@,
            InputError::InvalidCliArgument { argument, reason } =>
                "잘못된 CLI 인자(Invalid CLI Argument) '"@ + argument@ + "': "@ + reason@,
            InputError::IoError { path, reason } =>
                "I/O 오류 발생 경로 '"@ + path@ + "': "@ + reason@,
        }
    }

    /// The message of the error.
    pub fn to_string(&self) -> (r: String)
        ensures
            r@ == self.text(),
    {
        let (head, subject, reason) = match self {
            InputError::InvalidSourceRoot { path, reason } =>
                ("유효하지 않은 소스 루트(Invalid Source Root) '", path, reason),
            InputError::InvalidCompilationDatabase { path, reason } =>
                ("유효하지 않은 컴파일 데이터베이스(Invalid Compilation DB) '", path, reason),
            InputError::InvalidCliArgument { argument, reason } =>
                ("잘못된 CLI 인자(Invalid CLI Argument) '", argument, reason),
            InputError::IoError { path, reason } =>
                ("I/O 오류 발생 경로 '", path, reason),
        };
        let mut s = head.to_string();
        push_str(&mut s, subject.as_str());
        push_str(&mut s, "': ");
        push_str(&mut s, reason.as_str());
        s
    }
}

impl QueryError {
    /// The message of the error.
    pub open spec fn text(self) -> Seq<char> {
        match self {
            QueryError::SymbolNotFound { query } =>
                "심볼을 찾을 수 없습니다(Symbol Not Found): '"@ + query@ + "'"@,
            QueryError::AmbiguousSymbol { query, candidates } =>
                "심볼 쿼리가 모호합니다(Ambiguous Symbol): '"@ + query@ + "'. 가능한 후보: "@
                    + join_with(candidates@.map_values(|x: String| x@), ", "@),
            QueryError::EdgeNotFound { caller, callee } =>
                "호출자 '"@ + caller@ + "'와 피호출자 '"@ + callee@ + "' 사이의 엣지를 찾을 수 없습니다(Edge Not Found)"@,
        }
    }

    /// The message of the error.
    pub fn to_string(&self) -> (r: String)
        ensures
            r@ == self.text(),
    {
        match self {
            QueryError::SymbolNotFound { query } => {
                let mut s = "심볼을 찾을 수 없습니다(Symbol Not Found): '".to_string();
                push_str(&mut s, query.as_str());
                push_str(&mut s, "'");
                s
            },
            QueryError::AmbiguousSymbol { query, candidates } => {
                let mut s = "심볼 쿼리가 모호합니다(Ambiguous Symbol): '".to_string();
                push_str(&mut s, query.as_str());
                push_str(&mut s, "'. 가능한 후보: ");
                let joined = join_strings(candidates.as_slice(), ", ");
                push_str(&mut s, joined.as_str());
                s
            },
            QueryError::EdgeNotFound { caller, callee } => {
                let mut s = "호출자 '".to_string();
                push_str(&mut s, caller.as_str());
                push_str(&mut s, "'와 피호출자 '");
                push_str(&mut s, callee.as_str());
                push_str(&mut s, "' 사이의 엣지를 찾을 수 없습니다(Edge Not Found)");
                s
            },
        }
    }
}

impl AnalysisIssue {
    /// `[severity] message`, then ` at location` and ` (context: key)` when known.
    pub open spec fn text(self) -> Seq<char> {
        "["@ + self.severity.text() + "] "@ + self.message@
            + (match self.location {
                Some(l) => " at "@ + l.text(),
                None => Seq::empty(),
            })
            + (match self.context {
                Some(c) => " (context: "@ + c.0@ + ")"@,
                None => Seq::empty(),
            })
    }

    /// `[severity] message`, then ` at location` and ` (context: key)` when known.
    pub fn to_string(&self) -> (r: String)
        ensures
            r@ == self.text(),
    {
        let mut s = "[".to_string();
        let sev = self.severity.to_string();
        push_str(&mut s, sev.as_str());
        push_str(&mut s, "] ");
        push_str(&mut s, self.message.as_str());
        let ghost base = s@;
        match &self.location {
            Some(l) => {
                push_str(&mut s, " at ");
                let t = l.to_string();
                push_str(&mut s, t.as_str());
            },
            None => {},
        }
        let ghost with_loc = s@;
        match &self.context {
            Some(c) => {
                push_str(&mut s, " (context: ");
                push_str(&mut s, c.0.as_str());
                push_str(&mut s, ")");
            },
            None => {},
        }
        proof {
            let loc_part = match &self.location {
                Some(l) => " at "@ + l.text(),
                None => Seq::<char>::empty(),
            };
            let ctx_part = match &self.context {
                Some(c) => " (context: "@ + c.0@ + ")"@,
                None => Seq::<char>::empty(),
            };
            assert(with_loc =~= base + loc_part);
            assert(s@ =~= with_loc + ctx_part);
        }
        s
    }
}

impl Diagnostic {
    /// The kind of the diagnostic, then its message.
    pub open spec fn text(self) -> Seq<char> {
        match self {
            Diagnostic::Input(e) => "입력 오류(Input Error): "@ + e.text(),
            Diagnostic::Query(e) => "쿼리 오류(Query Error): "@ + e.text(),
            Diagnostic::Analysis(e) => "분석 문제(Analysis Issue): "@ + e.text(),
            Diagnostic::Internal(e) => "내부 오류(Internal Error): "@ + e.text(),
        }
    }

    /// The kind of the diagnostic, then its message.
    pub fn to_string(&self) -> (r: String)
        ensures
            r@ == self.text(),
    {
        let (mut s, t) = match self {
            Diagnostic::Input(e) => ("입력 오류(Input Error): ".to_string(), e.to_string()),
            Diagnostic::Query(e) => ("쿼리 오류(Query Error): ".to_string(), e.to_string()),
            Diagnostic::Analysis(e) => ("분석 문제(Analysis Issue): ".to_string(), e.to_string()),
            Diagnostic::Internal(e) => ("내부 오류(Internal Error): ".to_string(), e.to_string()),
        };
        push_str(&mut s, t.as_str());
        s
    }
}

impl FatalError {
    /// The message of the inner error, or that analysis failed.
    pub open spec fn text(self) -> Seq<char> {
        match self {
            FatalError::Input(e) => e.text(),
            FatalError::Query(e) => e.text(),
            FatalError::Internal(e) => e.text(),
            FatalError::AnalysisFailed(m) => "분석 실패(Analysis Failed): "@ + m@,
        }
    }

    /// The message of the inner error, or that analysis failed.
    pub fn to_string(&self) -> (r: String)
        ensures
            r@ == self.text(),
    {
        match self {
            FatalError::Input(e) => e.to_string(),
            FatalError::Query(e) => e.to_string(),
            FatalError::Internal(e) => e.to_string(),
            FatalError::AnalysisFailed(m) => {
                let mut s = "분석 실패(Analysis Failed): ".to_string();
                push_str(&mut s, m.as_str());
                s
            },
        }
    }
}


impl From<InputError> for FatalError {
    fn from(e: InputError) -> (r: Self) {
        FatalError::Input(e)
    }
}

impl vstd::std_specs::convert::FromSpecImpl<InputError> for FatalError {
    open spec fn obeys_from_spec() -> bool {
        true
    }

    open spec fn from_spec(e: InputError) -> FatalError {
        FatalError::Input(e)
    }
}

impl From<QueryError> for FatalError {
    fn from(e: QueryError) -> (r: Self) {
        FatalError::Query(e)
    }
}

impl vstd::std_specs::convert::FromSpecImpl<QueryError> for FatalError {
    open spec fn obeys_from_spec() -> bool {
        true
    }

    open spec fn from_spec(e: QueryError) -> FatalError {
        FatalError::Query(e)
    }
}

impl From<InternalError> for FatalError {
    fn from(e: InternalError) -> (r: Self) {
        FatalError::Internal(e)
    }
}

impl vstd::std_specs::convert::FromSpecImpl<InternalError> for FatalError {
    open spec fn obeys_from_spec() -> bool {
        true
    }

    open spec fn from_spec(e: InternalError) -> FatalError {
        FatalError::Internal(e)
    }
}

} // verus!
