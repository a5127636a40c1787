//! Ordering keys of the model types (see `order`): the code sequence of each key
//! type, in the order that type's fields and variants define.
use vstd::prelude::*;
use crate::order::{enc_str, enc_path, push_enc_str, push_enc_path};
use crate::model::{LineColumn, SourceLocation, SourceRange, BackendSymbolId, SymbolId, CallKind,
    Confidence, CompilationKey, CallEdge};

verus! {

pub open spec fn enc_opt_point(p: Option<LineColumn>) -> Seq<u32> {
    match p {
        Some(lc) => seq![1u32, lc.line, lc.column],
        None => seq![0u32],
    }
}

pub open spec fn enc_loc(l: SourceLocation) -> Seq<u32> {
    enc_path(l.file@) + enc_opt_point(l.point)
}

pub open spec fn enc_range(r: SourceRange) -> Seq<u32> {
    enc_loc(r.start) + match r.end {
        Some(e) => seq![1u32] + enc_loc(e),
        None => seq![0u32],
    }
}

pub open spec fn enc_opt_str(s: Option<String>) -> Seq<u32> {
    match s {
        Some(x) => seq![1u32] + enc_str(x@),
        None => seq![0u32],
    }
}

pub open spec fn enc_backend(b: BackendSymbolId) -> Seq<u32> {
    match b {
        BackendSymbolId::ClangUsr(s) => seq![0u32] + enc_str(s@),
        BackendSymbolId::ClangLocationFallback {
            canonical_declaration,
            cursor_kind,
            qualified_name,
            signature,
        } => seq![1u32] + enc_loc(canonical_declaration) + enc_str(cursor_kind@) + enc_str(
            qualified_name@,
        ) + enc_opt_str(signature),
        BackendSymbolId::TreeSitterLocationFallback { declaration, syntactic_kind, qualified_name } =>
            seq![2u32] + enc_loc(declaration) + enc_str(syntactic_kind@) + enc_str(qualified_name@),
    }
}

/// The key of a symbol identifier: language, then back-end identifier.
pub open spec fn enc_symbol_id(id: SymbolId) -> Seq<u32> {
    seq![id.language.code()] + enc_backend(id.backend_id)
}

pub open spec fn enc_opt_symbol_id(id: Option<SymbolId>) -> Seq<u32> {
    match id {
        Some(x) => seq![1u32] + enc_symbol_id(x),
        None => seq![0u32],
    }
}

/// The key under which verified edges merge: caller, callee, call site, kind,
/// confidence.
pub open spec fn enc_edge_key(
    caller: SymbolId,
    callee: Option<SymbolId>,
    callsite: SourceRange,
    kind: CallKind,
    confidence: Confidence,
) -> Seq<u32> {
    enc_symbol_id(caller) + enc_opt_symbol_id(callee) + enc_range(callsite) + seq![
        kind.code(),
        confidence.code(),
    ]
}

/// The merge key of an edge.
pub open spec fn edge_key_of(e: CallEdge) -> Seq<u32> {
    enc_edge_key(e.caller, e.callee, e.callsite, e.kind, e.confidence)
}

pub open spec fn enc_compilation_key(k: CompilationKey) -> Seq<u32> {
    enc_str(k.0@)
}

pub fn push_enc_opt_point(out: &mut Vec<u32>, p: &Option<LineColumn>)
    ensures
        final(out)@ == old(out)@ + enc_opt_point(*p),
{
    match p {
        Some(lc) => {
            out.push(1);
            out.push(lc.line);
            out.push(lc.column);
        },
        None => {
            out.push(0);
        },
    }
    assert(out@ =~= old(out)@ + enc_opt_point(*p));
}

pub fn push_enc_loc(out: &mut Vec<u32>, l: &SourceLocation)
    ensures
        final(out)@ == old(out)@ + enc_loc(*l),
{
    push_enc_path(out, l.file.as_str());
    push_enc_opt_point(out, &l.point);
    assert(out@ =~= old(out)@ + enc_loc(*l));
}

pub fn push_enc_range(out: &mut Vec<u32>, r: &SourceRange)
    ensures
        final(out)@ == old(out)@ + enc_range(*r),
{
    push_enc_loc(out, &r.start);
    let ghost mid = out@;
    match &r.end {
        Some(e) => {
            out.push(1);
            push_enc_loc(out, e);
            assert(out@ =~= mid + (seq![1u32] + enc_loc(*e)));
        },
        None => {
            out.push(0);
        },
    }
    assert(out@ =~= old(out)@ + enc_range(*r));
}

pub fn push_enc_opt_str(out: &mut Vec<u32>, s: &Option<String>)
    ensures
        final(out)@ == old(out)@ + enc_opt_str(*s),
{
    match s {
        Some(x) => {
            out.push(1);
            push_enc_str(out, x.as_str());
        },
        None => {
            out.push(0);
        },
    }
    assert(out@ =~= old(out)@ + enc_opt_str(*s));
}

pub fn push_enc_symbol_id(out: &mut Vec<u32>, id: &SymbolId)
    ensures
        final(out)@ == old(out)@ + enc_symbol_id(*id),
{
    out.push(id.language.code_of());
    match &id.backend_id {
        BackendSymbolId::ClangUsr(s) => {
            out.push(0);
            push_enc_str(out, s.as_str());
        },
        BackendSymbolId::ClangLocationFallback {
            canonical_declaration,
            cursor_kind,
            qualified_name,
            signature,
        } => {
            out.push(1);
            push_enc_loc(out, canonical_declaration);
            push_enc_str(out, cursor_kind.as_str());
            push_enc_str(out, qualified_name.as_str());
            push_enc_opt_str(out, signature);
        },
        BackendSymbolId::TreeSitterLocationFallback { declaration, syntactic_kind, qualified_name } => {
            out.push(2);
            push_enc_loc(out, declaration);
            push_enc_str(out, syntactic_kind.as_str());
            push_enc_str(out, qualified_name.as_str());
        },
    }
    assert(out@ =~= old(out)@ + enc_symbol_id(*id));
}

/// The ordering key of a symbol identifier.
pub fn symbol_id_key(id: &SymbolId) -> (r: Vec<u32>)
    ensures
        r@ == enc_symbol_id(*id),
{
    let mut v: Vec<u32> = Vec::new();
    push_enc_symbol_id(&mut v, id);
    assert(v@ =~= enc_symbol_id(*id));
    v
}

pub fn push_enc_opt_symbol_id(out: &mut Vec<u32>, id: &Option<SymbolId>)
    ensures
        final(out)@ == old(out)@ + enc_opt_symbol_id(*id),
{
    match id {
        Some(x) => {
            out.push(1);
            push_enc_symbol_id(out, x);
        },
        None => {
            out.push(0);
        },
    }
    assert(out@ =~= old(out)@ + enc_opt_symbol_id(*id));
}

/// The merge key of an edge.
pub fn edge_key(e: &CallEdge) -> (r: Vec<u32>)
    ensures
        r@ == edge_key_of(*e),
{
    let mut v: Vec<u32> = Vec::new();
    push_enc_symbol_id(&mut v, &e.caller);
    push_enc_opt_symbol_id(&mut v, &e.callee);
    push_enc_range(&mut v, &e.callsite);
    v.push(e.kind.code_of());
    v.push(e.confidence.code_of());
    assert(v@ =~= edge_key_of(*e));
    v
}

/// The ordering key of a compilation key.
pub fn compilation_key_key(k: &CompilationKey) -> (r: Vec<u32>)
    ensures
        r@ == enc_compilation_key(*k),
{
    crate::order::str_key(k.0.as_str())
}

/// Whether two symbol identifiers are the same key.
pub fn same_symbol_id(a: &SymbolId, b: &SymbolId) -> (r: bool)
    ensures
        r == (enc_symbol_id(*a) == enc_symbol_id(*b)),
{
    let ka = symbol_id_key(a);
    let kb = symbol_id_key(b);
    crate::order::compare_codes(ka.as_slice(), kb.as_slice()) == crate::order::KeyOrder::Equal
}

} // verus!
