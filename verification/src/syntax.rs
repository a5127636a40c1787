//! Tree-sitter front end: a source buffer is parsed by the C or C++ grammar and the
//! resulting tree is copied into a plain [`SyntaxNode`] tree that the library's
//! verified extraction walks.
use vstd::prelude::*;
use vstd::utf8::{decode_utf8, encode_utf8, valid_utf8};
use crate::model::Language;

verus! {

#[verifier::external_type_specification]
#[verifier::external_body]
pub struct ExNode<'a>(tree_sitter::Node<'a>);

/// A row and column, 0-based, as the parser reports positions.
#[derive(Debug, Clone, Copy, PartialEq, Eq, Structural)]
pub struct TextPoint {
    /// Row
    pub row: usize,
    /// Column, in bytes
    pub column: usize,
}

/// A syntax tree node: its kind, the field it fills in its parent, its byte and
/// point range, whether its subtree holds a syntax error, and its children in order.
#[derive(Debug)]
pub struct SyntaxNode {
    /// Grammar kind (`function_definition`, `identifier`, ...)
    pub kind: String,
    /// Field name in the parent (`name`, `body`, ...)
    pub field: Option<String>,
    /// First byte
    pub start_byte: usize,
    /// Byte after the last
    pub end_byte: usize,
    /// Start position
    pub start: TextPoint,
    /// End position
    pub end: TextPoint,
    /// Whether the subtree holds a syntax error
    pub has_error: bool,
    /// Children, named and anonymous, in order
    pub children: Vec<SyntaxNode>,
}

/// The tree the grammar of `language` gives for `source`, copied into plain
/// nodes; `None` when the grammar cannot be loaded. A tree-sitter tree depends
/// on the bytes and the grammar alone.
pub uninterp spec fn syntax_tree(source: Seq<u8>, language: Language) -> Option<SyntaxNode>;

/// `tree_sitter::Parser::set_language` with the grammar of `language`, then
/// `tree_sitter::Parser::parse` of the whole buffer with no earlier tree, the root
/// copied by [`ts_node_copy`]. The result is named by [`syntax_tree`]; the root
/// fills no field.
#[verifier::external_body]
fn ts_syntax_tree(source: &[u8], language: Language) -> (r: Option<SyntaxNode>)
    ensures
        r == syntax_tree(source@, language),
        r matches Some(n) ==> n.field is None,
{
    let mut p = tree_sitter::Parser::new();
    let g: tree_sitter::Language = match language { Language::C => tree_sitter_c::LANGUAGE.into(), Language::Cpp => tree_sitter_cpp::LANGUAGE.into() };
    p.set_language(&g).ok()?;
    let tree = p.parse(source, None)?;
    Some(ts_node_copy(&tree.root_node(), None))
}

/// The conversion [`ts_syntax_tree`] makes: a `tree_sitter::Node` and its
/// subtree copied one for one (`kind`, the field name given, `start_byte`,
/// `end_byte`, `start_position`, `end_position`, `has_error`, and each `child`
/// with its `field_name_for_child`, in order). Nothing is claimed of it here.
#[verifier::external_body]
fn ts_node_copy(node: &tree_sitter::Node<'_>, field: Option<String>) -> SyntaxNode {
    let (a, b) = (node.start_position(), node.end_position());
    let mut children = Vec::new();
    for i in 0..node.child_count() {
        if let Some(c) = node.child(i) {
            children.push(ts_node_copy(&c, node.field_name_for_child(i).map(String::from)));
        }
    }
    SyntaxNode { kind: node.kind().into(), field, start_byte: node.start_byte(), end_byte: node.end_byte(),
        start: TextPoint { row: a.row, column: a.column }, end: TextPoint { row: b.row, column: b.column },
        has_error: node.has_error(), children }
}

/// `std::str::from_utf8` on `src[start..end]`, copied into a string: `Some` exactly
/// when those bytes are valid UTF-8, and then the string's encoding is those bytes.
#[verifier::external_body]
fn utf8_slice(src: &[u8], start: usize, end: usize) -> (r: Option<String>)
    requires
        start <= end <= src@.len(),
    ensures
        r is Some <==> valid_utf8(src@.subrange(start as int, end as int)),
        r matches Some(s) ==> encode_utf8(s@) == src@.subrange(start as int, end as int),
{
    std::str::from_utf8(&src[start..end]).ok().map(|s| s.to_string())
}

/// Parses a source buffer with the grammar of its language: the tree
/// [`syntax_tree`] names, `None` when the grammar cannot be loaded.
pub fn parse_source(source: &[u8], language: Language) -> (r: Option<SyntaxNode>)
    ensures
        r == syntax_tree(source@, language),
        r matches Some(n) ==> n.field is None,
{
    ts_syntax_tree(source, language)
}

/// The characters of a node's bytes: empty when they are out of the buffer or
/// not valid UTF-8.
pub open spec fn node_chars(src: Seq<u8>, n: SyntaxNode) -> Seq<char> {
    if n.start_byte <= n.end_byte <= src.len() && valid_utf8(src.subrange(n.start_byte as int, n.end_byte as int)) {
        decode_utf8(src.subrange(n.start_byte as int, n.end_byte as int))
    } else {
        Seq::empty()
    }
}

/// The text of a node (`Node::utf8_text`, empty when it is not valid UTF-8).
pub fn node_text(src: &[u8], n: &SyntaxNode) -> (r: String)
    ensures
        n.start_byte <= n.end_byte <= src@.len() && valid_utf8(src@.subrange(n.start_byte as int, n.end_byte as int))
            ==> encode_utf8(r@) == src@.subrange(n.start_byte as int, n.end_byte as int),
        !(n.start_byte <= n.end_byte <= src@.len() && valid_utf8(src@.subrange(n.start_byte as int, n.end_byte as int)))
            ==> r@.len() == 0,
        r@ == node_chars(src@, *n),
{
    if n.start_byte <= n.end_byte && n.end_byte <= src.len() {
        match utf8_slice(src, n.start_byte, n.end_byte) {
            Some(s) => {
                proof {
                    vstd::utf8::encode_utf8_decode_utf8(s@);
                }
                s
            },
            None => String::new(),
        }
    } else {
        String::new()
    }
}

/// The position of the first child that fills `field`, if any.
pub open spec fn field_index(n: SyntaxNode, field: Seq<char>) -> Option<int> {
    if exists|i: int| 0 <= i < n.children@.len() && #[trigger] fills(n.children@[i], field) {
        Some(choose|i: int| 0 <= i < n.children@.len() && fills(n.children@[i], field)
            && forall|j: int| 0 <= j < i ==> !#[trigger] fills(n.children@[j], field))
    } else {
        None
    }
}

/// Whether a node fills the given field of its parent.
pub open spec fn fills(c: SyntaxNode, field: Seq<char>) -> bool {
    c.field matches Some(f) && f@ == field
}

/// The position of the first child that fills `field` (`Node::child_by_field_name`).
pub fn child_by_field(n: &SyntaxNode, field: &str) -> (r: Option<usize>)
    ensures
        r matches Some(i) ==> i < n.children@.len() && fills(n.children@[i as int], field@)
            && forall|j: int| 0 <= j < i ==> !fills(#[trigger] n.children@[j], field@),
        r is None ==> forall|j: int| 0 <= j < n.children@.len() ==> !fills(#[trigger] n.children@[j], field@),
        (match r { Some(i) => Some(i as int), None => None }) == field_index(*n, field@),
{
    let k = n.children.len();
    for i in 0..k
        invariant
            k == n.children@.len(),
            forall|j: int| 0 <= j < i ==> !fills(#[trigger] n.children@[j], field@),
    {
        match &n.children[i].field {
            Some(f) => {
                if crate::text::str_eq(f.as_str(), field) {
                    proof {
                        assert(fills(n.children@[i as int], field@));
                        let c = choose|c: int| 0 <= c < n.children@.len() && fills(n.children@[c], field@)
                            && forall|j: int| 0 <= j < c ==> !#[trigger] fills(n.children@[j], field@);
                        if c < i {
                            assert(!fills(n.children@[c], field@));
                        } else if c > i {
                            assert(!fills(n.children@[i as int], field@));
                        }
                    }
                    return Some(i);
                }
            },
            None => {},
        }
    }
    None
}

} // verus!
