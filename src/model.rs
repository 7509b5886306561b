//! The data model: byte ranges, captures, scopes and occurrences.
use vstd::prelude::*;

verus! {

/// A half-open interval of byte offsets into the source.
#[derive(Clone, Copy, Debug, PartialEq, Eq, Structural)]
pub struct ByteRange {
    pub start: usize,
    pub end: usize,
}

/// Line and column of the first and last position of a node, as the
/// parser reports them. Carried through unchanged into occurrences.
#[derive(Clone, Copy, Debug, PartialEq, Eq, Structural)]
pub struct Span {
    pub start_line: usize,
    pub start_column: usize,
    pub end_line: usize,
    pub end_column: usize,
}

/// One emitted record: a definition (tagged with its own id) or a
/// reference (tagged with the id of the definition it binds to).
#[derive(Clone, Copy, Debug, PartialEq, Eq, Structural)]
pub struct Occurrence {
    pub range: ByteRange,
    pub span: Span,
    pub id: usize,
    pub is_definition: bool,
}

/// A definition as stored in the scope tree.
#[derive(Debug)]
pub struct Definition {
    pub kind: String,
    pub range: ByteRange,
    pub span: Span,
    pub id: usize,
    /// Interned name.
    pub name: usize,
}

/// A reference as stored in the scope tree.
#[derive(Debug)]
pub struct Reference {
    pub range: ByteRange,
    pub span: Span,
    /// Interned name.
    pub name: usize,
}

/// A lexical region. Scopes live in an arena and point at each other by
/// index.
#[derive(Debug)]
pub struct Scope {
    pub kind: String,
    pub range: ByteRange,
    pub parent: Option<usize>,
    /// Definitions placed here by hoisting, visible everywhere in the scope.
    pub hoisted_definitions: Vec<Definition>,
    /// Definitions lexically owned by this scope, in source order.
    pub definitions: Vec<Definition>,
    /// References lexically owned by this scope, in source order.
    pub references: Vec<Reference>,
    /// Nested scopes, in source order.
    pub children: Vec<usize>,
}

/// The arena of all scopes of one file; index 0 is the whole-file root.
#[derive(Debug)]
pub struct ScopeTree {
    pub scopes: Vec<Scope>,
}

/// A capture classified as a scope.
#[derive(Debug)]
pub struct ScopeCapture {
    pub kind: String,
    pub range: ByteRange,
    pub span: Span,
}

/// A capture classified as a definition, with the kind of scope it is
/// hoisted to, if any.
#[derive(Debug)]
pub struct DefCapture {
    pub kind: String,
    pub hoist: Option<String>,
    pub range: ByteRange,
    pub span: Span,
}

/// A capture classified as a reference.
#[derive(Debug)]
pub struct RefCapture {
    pub kind: String,
    pub range: ByteRange,
    pub span: Span,
}

/// The three lists a classifier produces.
#[derive(Debug)]
pub struct Captures {
    pub scopes: Vec<ScopeCapture>,
    pub definitions: Vec<DefCapture>,
    pub references: Vec<RefCapture>,
}

/// Failures that abort the resolution of a file.
#[derive(Clone, Copy, Debug, PartialEq, Eq, Structural)]
pub enum LocalsError {
    /// The bytes of a captured definition or reference are not UTF-8.
    InvalidUtf8 { start: usize, end: usize },
    /// A definition starts at or after the end of the source, so the sweep
    /// leaves it in no scope: an internal-consistency failure, distinct from
    /// errors in the text itself.
    UnconsumedDefinition { start: usize },
}

impl Scope {
    /// A scope with no contents yet.
    pub fn new(kind: String, range: ByteRange, parent: Option<usize>) -> (r: Scope)
        ensures
            r.kind@ == kind@,
            r.range == range,
            r.parent == parent,
            r.hoisted_definitions@.len() == 0,
            r.definitions@.len() == 0,
            r.references@.len() == 0,
            r.children@.len() == 0,
    {
        Scope {
            kind,
            range,
            parent,
            hoisted_definitions: Vec::new(),
            definitions: Vec::new(),
            references: Vec::new(),
            children: Vec::new(),
        }
    }
}

/// Every scope but the root has a parent that comes earlier in the arena;
/// the root has none.
pub open spec fn tree_wf(t: ScopeTree) -> bool {
    &&& t.scopes@.len() > 0
    &&& t.scopes@[0].parent is None
    &&& forall|i: int|
        0 < i < t.scopes@.len() ==> ((#[trigger] t.scopes@[i]).parent matches Some(p) && p < i)
}

/// The definition occurrence emitted for `d`.
pub open spec fn definition_occurrence(d: DefCapture, id: usize) -> Occurrence {
    Occurrence { range: d.range, span: d.span, id, is_definition: true }
}

} // verus!
