//! Domain model: source locations, candidate symbols and calls found by the
//! syntactic front end, canonical symbols and verified call edges, queries and
//! their results.
use vstd::prelude::*;
use crate::order::{OrdMap, enc_str, enc_path, push_enc_str, push_enc_path};
use crate::text::{occurs_at, digits, format_u64, push_str, push_char, chars_of, trim_chars, trim_spec,
    last_occurrence, rfind, string_of_range};
use crate::diagnostic::Diagnostic;

verus! {

broadcast use vstd::string::group_string_axioms;

/// Programming language of an analysed file.
#[derive(Debug, Clone, Copy, PartialEq, Eq, Structural)]
pub enum Language {
    /// C
    C,
    /// C++
    Cpp,
}

impl Language {
    /// The display text: `C` or `C++`.
    pub open spec fn text(self) -> Seq<char> {
        match self {
            Language::C => seq!['C'],
            Language::Cpp => seq!['C', '+', '+'],
        }
    }

    /// The display text: `C` or `C++`.
    pub fn to_string(&self) -> (r: String)
        ensures
            r@ == self.text(),
    {
        match self {
            Language::C => {
                let r = "C".to_string();
                proof { reveal_strlit("C"); }
                r
            },
            Language::Cpp => {
                let r = "C++".to_string();
                proof { reveal_strlit("C++"); }
                r
            },
        }
    }

    pub open spec fn code(self) -> u32 {
        match self {
            Language::C => 0,
            Language::Cpp => 1,
        }
    }

    pub fn code_of(&self) -> (r: u32)
        ensures
            r == self.code(),
    {
        match self {
            Language::C => 0,
            Language::Cpp => 1,
        }
    }
}

/// A 1-based line and column.
#[derive(Debug, Clone, Copy, PartialEq, Eq, Structural)]
pub struct LineColumn {
    /// Line (1-based)
    pub line: u32,
    /// Column (1-based)
    pub column: u32,
}

impl LineColumn {
    /// `line:column`.
    pub open spec fn text(self) -> Seq<char> {
        digits(self.line as nat, 10) + seq![':'] + digits(self.column as nat, 10)
    }

    /// `line:column`.
    pub fn to_string(&self) -> (r: String)
        ensures
            r@ == self.text(),
    {
        let mut s = format_u64(self.line as u64, 10);
        push_char(&mut s, ':');
        let c = format_u64(self.column as u64, 10);
        push_str(&mut s, c.as_str());
        s
    }
}

/// A source location: a file and, when known, a line and column.
#[derive(Debug, PartialEq, Eq)]
pub struct SourceLocation {
    /// File path
    pub file: String,
    /// Line and column (absent when the location has no coordinates)
    pub point: Option<LineColumn>,
}

impl Clone for SourceLocation {
    fn clone(&self) -> (r: Self)
        ensures
            r == *self,
    {
        SourceLocation { file: self.file.clone(), point: self.point }
    }
}

impl SourceLocation {
    /// A location with a line and column.
    pub fn new(file: &str, line: u32, column: u32) -> (r: Self)
        ensures
            r.file@ == file@,
            r.point == Some(LineColumn { line, column }),
    {
        SourceLocation { file: file.to_string(), point: Some(LineColumn { line, column }) }
    }

    /// A location that names only a file.
    pub fn file_only(file: &str) -> (r: Self)
        ensures
            r.file@ == file@,
            r.point is None,
    {
        SourceLocation { file: file.to_string(), point: None }
    }

    /// `file` or `file:line:column`.
    pub open spec fn text(self) -> Seq<char> {
        match self.point {
            Some(p) => self.file@ + seq![':'] + p.text(),
            None => self.file@,
        }
    }

    /// `file` or `file:line:column`.
    pub fn to_string(&self) -> (r: String)
        ensures
            r@ == self.text(),
    {
        let mut s = self.file.clone();
        match &self.point {
            Some(p) => {
                push_char(&mut s, ':');
                let t = p.to_string();
                push_str(&mut s, t.as_str());
            },
            None => {},
        }
        s
    }
}

/// A source range: a start and an optional end.
#[derive(Debug, PartialEq, Eq)]
pub struct SourceRange {
    /// Start
    pub start: SourceLocation,
    /// End (optional)
    pub end: Option<SourceLocation>,
}

impl Clone for SourceRange {
    fn clone(&self) -> (r: Self)
        ensures
            r == *self,
    {
        SourceRange {
            start: self.start.clone(),
            end: match &self.end {
                Some(e) => Some(e.clone()),
                None => None,
            },
        }
    }
}

impl SourceRange {
    /// A range made of one location.
    pub fn single(loc: SourceLocation) -> (r: Self)
        ensures
            r.start == loc,
            r.end is None,
    {
        SourceRange { start: loc, end: None }
    }

    /// A range from `start` to `end`.
    pub fn spanned(start: SourceLocation, end: SourceLocation) -> (r: Self)
        ensures
            r.start == start,
            r.end == Some(end),
    {
        SourceRange { start, end: Some(end) }
    }

    /// The start, then `-line:column` of the end when the end has coordinates.
    pub open spec fn text(self) -> Seq<char> {
        match self.end {
            Some(e) => match e.point {
                Some(p) => self.start.text() + seq!['-'] + p.text(),
                None => self.start.text(),
            },
            None => self.start.text(),
        }
    }

    /// The start, then `-line:column` of the end when the end has coordinates.
    pub fn to_string(&self) -> (r: String)
        ensures
            r@ == self.text(),
    {
        let mut s = self.start.to_string();
        match &self.end {
            Some(e) => match &e.point {
                Some(p) => {
                    push_char(&mut s, '-');
                    let t = p.to_string();
                    push_str(&mut s, t.as_str());
                },
                None => {},
            },
            None => {},
        }
        s
    }
}

/// Identifier of a syntactic candidate symbol.
#[derive(Debug, Clone, Copy, PartialEq, Eq, Structural)]
pub struct CandidateSymbolId(pub u32);

/// Syntactic kind of a candidate symbol.
#[derive(Debug, Clone, Copy, PartialEq, Eq, Structural)]
pub enum CandidateSymbolKind {
    /// Free function
    Function,
    /// Class or struct method
    Method,
    /// Constructor or destructor
    ConstructorOrDestructor,
}

impl CandidateSymbolKind {
    pub open spec fn code(self) -> u32 {
        match self {
            CandidateSymbolKind::Function => 0,
            CandidateSymbolKind::Method => 1,
            CandidateSymbolKind::ConstructorOrDestructor => 2,
        }
    }

    pub fn code_of(&self) -> (r: u32)
        ensures
            r == self.code(),
    {
        match self {
            CandidateSymbolKind::Function => 0,
            CandidateSymbolKind::Method => 1,
            CandidateSymbolKind::ConstructorOrDestructor => 2,
        }
    }

    /// The variant name.
    pub open spec fn text(self) -> Seq<char> {
        match self {
            CandidateSymbolKind::Function => "Function"@,
            CandidateSymbolKind::Method => "Method"@,
            CandidateSymbolKind::ConstructorOrDestructor => "ConstructorOrDestructor"@,
        }
    }

    /// The variant name, as `Debug` prints it.
    pub fn name(&self) -> (r: String)
        ensures
            r@ == self.text(),
    {
        match self {
            CandidateSymbolKind::Function => "Function".to_string(),
            CandidateSymbolKind::Method => "Method".to_string(),
            CandidateSymbolKind::ConstructorOrDestructor => "ConstructorOrDestructor".to_string(),
        }
    }
}

/// A candidate symbol found by syntactic discovery.
#[derive(Debug, PartialEq, Eq)]
pub struct CandidateSymbol {
    /// Identifier
    pub id: CandidateSymbolId,
    /// Language
    pub language: Language,
    /// Syntactic kind
    pub syntactic_kind: CandidateSymbolKind,
    /// Terminal name
    pub name: String,
    /// Qualifier hint (`ns::Class::`)
    pub qualifier_hint: Option<String>,
    /// Signature hint
    pub signature_hint: Option<String>,
    /// Owning class or struct
    pub owner_hint: Option<String>,
    /// Declaration range
    pub declaration: SourceRange,
    /// Body range of a definition
    pub definition_body: Option<SourceRange>,
    /// Whether the declaration parsed without syntax errors
    pub syntax_complete: bool,
}

/// Clones an optional string, keeping its value.
pub fn clone_opt_string(o: &Option<String>) -> (r: Option<String>)
    ensures
        r == *o,
{
    match o {
        Some(s) => Some(s.clone()),
        None => None,
    }
}

impl Clone for CandidateSymbol {
    fn clone(&self) -> (r: Self)
        ensures
            r == *self,
    {
        CandidateSymbol {
            id: self.id,
            language: self.language,
            syntactic_kind: self.syntactic_kind,
            name: self.name.clone(),
            qualifier_hint: clone_opt_string(&self.qualifier_hint),
            signature_hint: clone_opt_string(&self.signature_hint),
            owner_hint: clone_opt_string(&self.owner_hint),
            declaration: self.declaration.clone(),
            definition_body: match &self.definition_body {
                Some(b) => Some(b.clone()),
                None => None,
            },
            syntax_complete: self.syntax_complete,
        }
    }
}

/// Deduplication key of a candidate symbol.
#[derive(Debug, PartialEq, Eq)]
pub struct CandidateSymbolKey {
    pub file: String,
    pub declaration_range: SourceRange,
    pub syntactic_kind: CandidateSymbolKind,
}

/// Identifier of a syntactic candidate call.
#[derive(Debug, Clone, Copy, PartialEq, Eq, Structural)]
pub struct CandidateCallId(pub u32);

/// Syntactic hint on the form of a candidate call.
#[derive(Debug, Clone, Copy, PartialEq, Eq, Structural)]
pub enum CandidateCallKind {
    /// `f()`
    Direct,
    /// `obj.f()` or `ptr->f()`
    Member,
    /// `ns::f()`
    Qualified,
    /// anything else
    Other,
}

/// A candidate call site found by syntactic discovery.
#[derive(Debug, PartialEq, Eq)]
pub struct CandidateCallSite {
    /// Identifier
    pub id: CandidateCallId,
    /// The candidate symbol whose body holds the call
    pub caller: CandidateSymbolId,
    /// Terminal name of the callee as written
    pub callee_spelling: String,
    /// Location of the callee's terminal name
    pub callee_location: Option<SourceLocation>,
    /// Qualifier hint
    pub qualifier_hint: Option<String>,
    /// Range of the call expression
    pub expression: SourceRange,
    /// Text of the call expression
    pub expression_text: Option<String>,
    /// Syntactic form
    pub syntax_hint: CandidateCallKind,
    /// Whether the expression parsed without syntax errors
    pub syntax_complete: bool,
}

impl Clone for CandidateCallSite {
    fn clone(&self) -> (r: Self)
        ensures
            r == *self,
    {
        CandidateCallSite {
            id: self.id,
            caller: self.caller,
            callee_spelling: self.callee_spelling.clone(),
            callee_location: match &self.callee_location {
                Some(l) => Some(l.clone()),
                None => None,
            },
            qualifier_hint: clone_opt_string(&self.qualifier_hint),
            expression: self.expression.clone(),
            expression_text: clone_opt_string(&self.expression_text),
            syntax_hint: self.syntax_hint,
            syntax_complete: self.syntax_complete,
        }
    }
}

/// Deduplication key of a candidate call.
#[derive(Debug, PartialEq, Eq)]
pub struct CandidateCallKey {
    pub file: String,
    pub expression_range: SourceRange,
    pub enclosing_symbol: CandidateSymbolId,
    pub callee_spelling: String,
}

/// Canonical identifier given by a semantic back end.
#[derive(Debug, PartialEq, Eq)]
pub enum BackendSymbolId {
    /// A Clang USR
    ClangUsr(String),
    /// Location-based identifier when Clang gives no USR
    ClangLocationFallback {
        canonical_declaration: SourceLocation,
        cursor_kind: String,
        qualified_name: String,
        signature: Option<String>,
    },
    /// Location-based identifier of a syntactic candidate
    TreeSitterLocationFallback {
        declaration: SourceLocation,
        syntactic_kind: String,
        qualified_name: String,
    },
}

impl Clone for BackendSymbolId {
    fn clone(&self) -> (r: Self)
        ensures
            r == *self,
    {
        match self {
            BackendSymbolId::ClangUsr(s) => BackendSymbolId::ClangUsr(s.clone()),
            BackendSymbolId::ClangLocationFallback {
                canonical_declaration,
                cursor_kind,
                qualified_name,
                signature,
            } => BackendSymbolId::ClangLocationFallback {
                canonical_declaration: canonical_declaration.clone(),
                cursor_kind: cursor_kind.clone(),
                qualified_name: qualified_name.clone(),
                signature: clone_opt_string(signature),
            },
            BackendSymbolId::TreeSitterLocationFallback {
                declaration,
                syntactic_kind,
                qualified_name,
            } => BackendSymbolId::TreeSitterLocationFallback {
                declaration: declaration.clone(),
                syntactic_kind: syntactic_kind.clone(),
                qualified_name: qualified_name.clone(),
            },
        }
    }
}

/// Language-neutral canonical symbol identifier.
#[derive(Debug, PartialEq, Eq)]
pub struct SymbolId {
    /// Language
    pub language: Language,
    /// Back-end identifier
    pub backend_id: BackendSymbolId,
}

impl Clone for SymbolId {
    fn clone(&self) -> (r: Self)
        ensures
            r == *self,
    {
        SymbolId { language: self.language, backend_id: self.backend_id.clone() }
    }
}

impl SymbolId {
    /// An identifier from a Clang USR.
    pub fn clang_usr(language: Language, usr: &str) -> (r: Self)
        ensures
            r.language == language,
            r.backend_id matches BackendSymbolId::ClangUsr(u) && u@ == usr@,
    {
        SymbolId { language, backend_id: BackendSymbolId::ClangUsr(usr.to_string()) }
    }

    /// A stable identifier of a syntactic candidate, from its location and name.
    pub fn tree_sitter_fallback(
        language: Language,
        declaration: SourceLocation,
        syntactic_kind: &str,
        qualified_name: &str,
    ) -> (r: Self)
        ensures
            r.language == language,
            r.backend_id matches BackendSymbolId::TreeSitterLocationFallback {
                declaration: d,
                syntactic_kind: k,
                qualified_name: q,
            } && d == declaration && k@ == syntactic_kind@ && q@ == qualified_name@,
    {
        SymbolId {
            language,
            backend_id: BackendSymbolId::TreeSitterLocationFallback {
                declaration,
                syntactic_kind: syntactic_kind.to_string(),
                qualified_name: qualified_name.to_string(),
            },
        }
    }
}

/// A canonical symbol.
#[derive(Debug, PartialEq, Eq)]
pub struct Symbol {
    /// Identifier
    pub id: SymbolId,
    /// Terminal name
    pub name: String,
    /// Qualified name, with namespaces and owners
    pub qualified_name: Option<String>,
    /// Enclosing namespace (`outer::inner`)
    pub namespace: Option<String>,
    /// Owning class or struct (`Outer::Inner`)
    pub class_name: Option<String>,
    /// Signature
    pub signature: Option<String>,
    /// Declaration location
    pub declaration: Option<SourceLocation>,
    /// Definition location
    pub definition: Option<SourceLocation>,
}

impl Clone for Symbol {
    fn clone(&self) -> (r: Self)
        ensures
            r == *self,
    {
        Symbol {
            id: self.id.clone(),
            name: self.name.clone(),
            qualified_name: clone_opt_string(&self.qualified_name),
            namespace: clone_opt_string(&self.namespace),
            class_name: clone_opt_string(&self.class_name),
            signature: clone_opt_string(&self.signature),
            declaration: match &self.declaration {
                Some(l) => Some(l.clone()),
                None => None,
            },
            definition: match &self.definition {
                Some(l) => Some(l.clone()),
                None => None,
            },
        }
    }
}

impl Symbol {
    /// The name shown for a symbol: its qualified name when it has one.
    pub open spec fn display_name_spec(self) -> Seq<char> {
        match self.qualified_name {
            Some(q) => q@,
            None => self.name@,
        }
    }

    /// The name shown for a symbol: its qualified name when it has one.
    pub fn display_name(&self) -> (r: &str)
        ensures
            r@ == self.display_name_spec(),
    {
        match &self.qualified_name {
            Some(q) => q.as_str(),
            None => self.name.as_str(),
        }
    }
}

/// Confidence of a call edge. There are exactly three states.
#[derive(Debug, Clone, Copy, PartialEq, Eq, Structural)]
pub enum Confidence {
    /// Semantic evidence identifies the unique callee
    Confirmed,
    /// A valid candidate among targets that cannot be uniquely proven
    Possible,
    /// No target could be identified
    Unresolved,
}

impl Confidence {
    pub open spec fn text(self) -> Seq<char> {
        match self {
            Confidence::Confirmed => seq!['C', 'O', 'N', 'F', 'I', 'R', 'M', 'E', 'D'],
            Confidence::Possible => seq!['P', 'O', 'S', 'S', 'I', 'B', 'L', 'E'],
            Confidence::Unresolved => seq!['U', 'N', 'R', 'E', 'S', 'O', 'L', 'V', 'E', 'D'],
        }
    }

    /// `CONFIRMED`, `POSSIBLE` or `UNRESOLVED`.
    pub fn to_string(&self) -> (r: String)
        ensures
            r@ == self.text(),
    {
        match self {
            Confidence::Confirmed => {
                proof { reveal_strlit("CONFIRMED"); }
                "CONFIRMED".to_string()
            },
            Confidence::Possible => {
                proof { reveal_strlit("POSSIBLE"); }
                "POSSIBLE".to_string()
            },
            Confidence::Unresolved => {
                proof { reveal_strlit("UNRESOLVED"); }
                "UNRESOLVED".to_string()
            },
        }
    }

    pub open spec fn code(self) -> u32 {
        match self {
            Confidence::Confirmed => 0,
            Confidence::Possible => 1,
            Confidence::Unresolved => 2,
        }
    }

    pub fn code_of(&self) -> (r: u32)
        ensures
            r == self.code(),
    {
        match self {
            Confidence::Confirmed => 0,
            Confidence::Possible => 1,
            Confidence::Unresolved => 2,
        }
    }
}

/// Form of a call.
#[derive(Debug, Clone, Copy, PartialEq, Eq, Structural)]
pub enum CallKind {
    /// Direct call
    Direct,
    /// Virtual dispatch
    Virtual,
    /// Call through a function pointer
    FunctionPointer,
    /// Template-related call
    Template,
    /// Call produced by a macro expansion
    MacroExpanded,
    /// Call across a language or project boundary
    Foreign,
    /// Form could not be determined
    Unresolved,
}

impl CallKind {
    pub open spec fn text(self) -> Seq<char> {
        match self {
            CallKind::Direct => seq!['d', 'i', 'r', 'e', 'c', 't'],
            CallKind::Virtual => seq!['v', 'i', 'r', 't', 'u', 'a', 'l'],
            CallKind::FunctionPointer => seq!['f', 'u', 'n', 'c', 't', 'i', 'o', 'n', '_', 'p', 'o', 'i', 'n', 't', 'e', 'r'],
            CallKind::Template => seq!['t', 'e', 'm', 'p', 'l', 'a', 't', 'e'],
            CallKind::MacroExpanded => seq!['m', 'a', 'c', 'r', 'o', '_', 'e', 'x', 'p', 'a', 'n', 'd', 'e', 'd'],
            CallKind::Foreign => seq!['f', 'o', 'r', 'e', 'i', 'g', 'n'],
            CallKind::Unresolved => seq!['u', 'n', 'r', 'e', 's', 'o', 'l', 'v', 'e', 'd'],
        }
    }

    /// The snake-case name of the kind.
    pub fn to_string(&self) -> (r: String)
        ensures
            r@ == self.text(),
    {
        match self {
            CallKind::Direct => {
                proof { reveal_strlit("direct"); }
                "direct".to_string()
            },
            CallKind::Virtual => {
                proof { reveal_strlit("virtual"); }
                "virtual".to_string()
            },
            CallKind::FunctionPointer => {
                proof { reveal_strlit("function_pointer"); }
                "function_pointer".to_string()
            },
            CallKind::Template => {
                proof { reveal_strlit("template"); }
                "template".to_string()
            },
            CallKind::MacroExpanded => {
                proof { reveal_strlit("macro_expanded"); }
                "macro_expanded".to_string()
            },
            CallKind::Foreign => {
                proof { reveal_strlit("foreign"); }
                "foreign".to_string()
            },
            CallKind::Unresolved => {
                proof { reveal_strlit("unresolved"); }
                "unresolved".to_string()
            },
        }
    }

    pub open spec fn code(self) -> u32 {
        match self {
            CallKind::Direct => 0,
            CallKind::Virtual => 1,
            CallKind::FunctionPointer => 2,
            CallKind::Template => 3,
            CallKind::MacroExpanded => 4,
            CallKind::Foreign => 5,
            CallKind::Unresolved => 6,
        }
    }

    pub fn code_of(&self) -> (r: u32)
        ensures
            r == self.code(),
    {
        match self {
            CallKind::Direct => 0,
            CallKind::Virtual => 1,
            CallKind::FunctionPointer => 2,
            CallKind::Template => 3,
            CallKind::MacroExpanded => 4,
            CallKind::Foreign => 5,
            CallKind::Unresolved => 6,
        }
    }
}

/// Why verification reached its verdict.
#[derive(Debug, Clone, Copy, PartialEq, Eq, Structural)]
pub enum VerificationReason {
    /// The canonical reference matched exactly
    ExactReference,
    /// Several runtime targets are possible (virtual calls)
    MultipleRuntimeTargets,
    /// The target of an indirect call is unknown
    IndirectTargetUnknown,
    /// No cursor at the call site
    CursorNotFound,
    /// The reference is ambiguous
    AmbiguousReference,
    /// The call crosses a foreign boundary
    ForeignBoundary,
    /// A syntactic candidate kept without semantic verification
    SyntacticCandidate,
}

impl VerificationReason {
    /// The variant name, as `Debug` prints it.
    pub open spec fn text(self) -> Seq<char> {
        match self {
            VerificationReason::ExactReference => "ExactReference"@,
            VerificationReason::MultipleRuntimeTargets => "MultipleRuntimeTargets"@,
            VerificationReason::IndirectTargetUnknown => "IndirectTargetUnknown"@,
            VerificationReason::CursorNotFound => "CursorNotFound"@,
            VerificationReason::AmbiguousReference => "AmbiguousReference"@,
            VerificationReason::ForeignBoundary => "ForeignBoundary"@,
            VerificationReason::SyntacticCandidate => "SyntacticCandidate"@,
        }
    }

    /// The variant name, as `Debug` prints it.
    pub fn name(&self) -> (r: String)
        ensures
            r@ == self.text(),
    {
        match self {
            VerificationReason::ExactReference => "ExactReference".to_string(),
            VerificationReason::MultipleRuntimeTargets => "MultipleRuntimeTargets".to_string(),
            VerificationReason::IndirectTargetUnknown => "IndirectTargetUnknown".to_string(),
            VerificationReason::CursorNotFound => "CursorNotFound".to_string(),
            VerificationReason::AmbiguousReference => "AmbiguousReference".to_string(),
            VerificationReason::ForeignBoundary => "ForeignBoundary".to_string(),
            VerificationReason::SyntacticCandidate => "SyntacticCandidate".to_string(),
        }
    }
}

/// A diagnostic reported by the semantic back end.
#[derive(Debug)]
pub struct SemanticDiagnostic {
    pub message: String,
    pub location: Option<SourceLocation>,
}

/// Evidence behind a verified edge, for one compilation context.
#[derive(Debug)]
pub struct VerificationEvidence {
    /// Text of the call expression
    pub expression_text: Option<String>,
    /// The statically referenced target
    pub static_target: Option<Symbol>,
    /// Possible targets
    pub candidate_targets: Vec<Symbol>,
    /// Back-end diagnostics
    pub clang_diagnostics: Vec<SemanticDiagnostic>,
    /// Why the verdict was reached
    pub reason: VerificationReason,
    /// Spelling location
    pub spelling_location: Option<SourceLocation>,
    /// Macro expansion location
    pub expansion_location: Option<SourceLocation>,
    /// Virtual call
    pub is_virtual: bool,
    /// Template-related call
    pub is_template_related: bool,
    /// Call produced by a macro expansion
    pub is_macro_expanded: bool,
}

/// Key of a compilation context.
#[derive(Debug, PartialEq, Eq)]
pub struct CompilationKey(pub String);

impl Clone for CompilationKey {
    fn clone(&self) -> (r: Self)
        ensures
            r == *self,
    {
        CompilationKey(self.0.clone())
    }
}

/// A compilation context: one usable entry of the compilation database.
#[derive(Debug, Clone)]
pub struct CompilationContext {
    /// Key
    pub key: CompilationKey,
    /// Working directory
    pub directory: String,
    /// Source file
    pub source_file: String,
    /// Arguments handed to Clang
    pub clang_args: Vec<String>,
}

/// Identifier of a verified call edge.
#[derive(Debug, Clone, Copy, PartialEq, Eq, Structural)]
pub struct CallEdgeId(pub u32);

/// A verified call edge.
#[derive(Debug)]
pub struct CallEdge {
    /// Identifier
    pub id: CallEdgeId,
    /// Caller
    pub caller: SymbolId,
    /// Callee (absent when the target is unknown)
    pub callee: Option<SymbolId>,
    /// Call site
    pub callsite: SourceRange,
    /// Call kind
    pub kind: CallKind,
    /// Confidence
    pub confidence: Confidence,
    /// Contributing compilation contexts, ordered by key
    pub contexts: OrdMap<CompilationKey>,
    /// Evidence per compilation context, ordered by key
    pub evidence_by_context: OrdMap<(CompilationKey, VerificationEvidence)>,
}

/// The key under which verified edges are merged.
#[derive(Debug)]
pub struct VerifiedEdgeKey {
    pub caller: SymbolId,
    pub callee: Option<SymbolId>,
    pub callsite: SourceRange,
    pub kind: CallKind,
    pub confidence: Confidence,
}

/// A symbol query from the user.
#[derive(Debug, PartialEq, Eq)]
pub struct SymbolQuery {
    /// The query as given, trimmed
    pub raw: String,
    /// Qualifier prefix (e.g. `ns::Class::`)
    pub qualifier_hint: Option<String>,
    /// Terminal name (e.g. `targetFunc`)
    pub terminal_name: String,
}

impl Clone for SymbolQuery {
    fn clone(&self) -> (r: Self)
        ensures
            r == *self,
    {
        SymbolQuery {
            raw: self.raw.clone(),
            qualifier_hint: clone_opt_string(&self.qualifier_hint),
            terminal_name: self.terminal_name.clone(),
        }
    }
}

/// `::`
pub open spec fn scope_sep() -> Seq<char> {
    seq![':', ':']
}

/// The split of a qualified name at its last `::`: the qualifier (ending in `::`)
/// and the terminal name; no qualifier when there is no `::`.
pub open spec fn split_qualified(s: Seq<char>) -> (Option<Seq<char>>, Seq<char>) {
    match last_occurrence(s, scope_sep()) {
        Some(pos) => (Some(s.subrange(0, pos + 2)), s.subrange(pos + 2, s.len() as int)),
        None => (None, s),
    }
}

/// Splits a qualified name at its last `::`.
pub fn split_at_last_scope(cs: &[char]) -> (r: (Option<String>, String))
    ensures
        (match r.0 { Some(q) => Some(q@), None => None }, r.1@) == split_qualified(cs@),
{
    let sep = vec![':', ':'];
    assert(sep@ =~= scope_sep());
    match rfind(cs, &sep) {
        Some(pos) => {
            assert(occurs_at(cs@, sep@, pos as int));
            assert(sep@.len() == 2);
            let len = cs.len();
            assert(pos + 2 <= len);
            let q = string_of_range(cs, 0, pos + 2);
            let n = string_of_range(cs, pos + 2, cs.len());
            (Some(q), n)
        },
        None => {
            let n = string_of_range(cs, 0, cs.len());
            assert(cs@.subrange(0, cs@.len() as int) =~= cs@);
            (None, n)
        },
    }
}

impl SymbolQuery {
    /// Whether the query is the parse of `input`: its trimmed text, split at
    /// its last `::`.
    pub open spec fn parsed_from(self, input: Seq<char>) -> bool {
        &&& self.raw@ == trim_spec(input)
        &&& (match self.qualifier_hint { Some(q) => Some(q@), None => None }, self.terminal_name@)
            == split_qualified(trim_spec(input))
    }

    /// A query parsed from some text is also the query parsed from its own raw
    /// text: parsing is stable on what it keeps.
    pub proof fn law_parse_raw_stable(self, input: Seq<char>)
        requires
            self.parsed_from(input),
        ensures
            self.parsed_from(self.raw@),
    {
        crate::text::lemma_trim_idempotent(input);
    }

    /// Parses a query: trims it and splits it at its last `::` into a qualifier
    /// and a terminal name.
    pub fn parse(input: &str) -> (r: Self)
        ensures
            r.raw@ == trim_spec(input@),
            (match r.qualifier_hint { Some(q) => Some(q@), None => None }, r.terminal_name@)
                == split_qualified(trim_spec(input@)),
    {
        let cs = chars_of(input);
        let t = trim_chars(&cs);
        let raw = string_of_range(&t, 0, t.len());
        assert(t@.subrange(0, t@.len() as int) =~= t@);
        let (qualifier_hint, terminal_name) = split_at_last_scope(&t);
        SymbolQuery { raw, qualifier_hint, terminal_name }
    }
}

/// A query request.
#[derive(Debug)]
pub enum QueryRequest {
    /// Paths from the top-level callers down to one method
    Trace { target: SymbolQuery, max_depth: Option<usize>, verified_only: bool },
    /// Callers of a symbol
    Callers { target: SymbolQuery, max_depth: Option<usize>, verified_only: bool },
    /// Callees of a symbol
    Callees { source: SymbolQuery, max_depth: Option<usize>, verified_only: bool },
    /// A path between two symbols
    Path {
        source: SymbolQuery,
        target: SymbolQuery,
        max_depth: Option<usize>,
        verified_only: bool,
    },
    /// The edges between a caller and a callee
    Explain { caller: SymbolQuery, callee: SymbolQuery },
}

/// A call path: its symbols, and the edges between consecutive symbols.
#[derive(Debug)]
pub struct CallPath {
    /// Symbols
    pub nodes: Vec<SymbolId>,
    /// Edges; `nodes.len() == edges.len() + 1`
    pub edges: Vec<CallEdgeId>,
}

/// How a query completed.
#[derive(Debug, Clone, Copy, PartialEq, Eq, Structural)]
pub enum Completion {
    /// The search completed
    Complete,
    /// The search completed with no result
    NoResult,
    /// The search stopped at the maximum depth
    Truncated { max_depth: usize },
    /// Some analysis failed; the result is partial
    Partial,
}

/// Summary counts of a result.
#[derive(Debug, Clone, Copy, PartialEq, Eq, Default)]
pub struct ResultCounts {
    /// Symbols found
    pub total_symbols: usize,
    /// CONFIRMED edges
    pub confirmed_edges: usize,
    /// POSSIBLE edges
    pub possible_edges: usize,
    /// UNRESOLVED edges
    pub unresolved_edges: usize,
    /// Paths found
    pub paths_count: usize,
}

/// Workload and timing counters of a query.
#[derive(Debug, Clone, Default)]
pub struct QueryMetrics {
    /// Source files inspected by the text prefilter
    pub source_files_inspected: usize,
    /// Source files parsed by Tree-sitter
    pub source_files_parsed_by_treesitter: usize,
    /// Candidate call sites known
    pub candidate_call_sites: usize,
    /// Translation units available
    pub available_translation_units: usize,
    /// Translation units holding candidates
    pub candidate_translation_units: usize,
    /// Translation units verified
    pub verified_translation_units: usize,
    /// Clang TU parses
    pub clang_tu_parses: usize,
    /// TU cache hits
    pub tu_cache_hits: usize,
    /// Semantic candidates verified
    pub semantic_candidates_verified: usize,
    /// Discovery time (nanoseconds)
    pub discovery_time: u64,
    /// Verification time (nanoseconds)
    pub verification_time: u64,
    /// Traversal time (nanoseconds)
    pub traversal_time: u64,
    /// Total query time (nanoseconds)
    pub total_query_time: u64,
    /// Peak resident memory (bytes)
    pub peak_resident_memory_bytes: u64,
    /// Source files that semantic results refer to
    pub verified_source_files: Vec<String>,
    /// Parsed source files that no semantic result refers to
    pub skipped_source_files: Vec<String>,
}

/// The result of a query.
#[derive(Debug)]
pub struct QueryResult {
    /// Completion status
    pub completion: Completion,
    /// Symbols, ordered by identifier
    pub symbols: OrdMap<Symbol>,
    /// Edges
    pub edges: Vec<CallEdge>,
    /// Paths
    pub paths: Vec<CallPath>,
    /// Counts
    pub counts: ResultCounts,
    /// Diagnostics
    pub diagnostics: Vec<Diagnostic>,
    /// Metrics
    pub metrics: QueryMetrics,
}

} // verus!
