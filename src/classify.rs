//! Sorting raw query captures into scopes, definitions and references.
use vstd::prelude::*;
use vstd::string::StrSliceExecFns;
use crate::model::{ByteRange, Captures, DefCapture, RefCapture, ScopeCapture, Span};

verus! {

/// What a capture name marks.
#[derive(Clone, Copy, Debug, PartialEq, Eq, Structural)]
pub enum CaptureClass {
    Scope,
    Definition,
    Reference,
}

/// One capture as the query reports it: its name, the `hoist` property of
/// its match if there is one, and the node's position.
#[derive(Debug)]
pub struct RawCapture {
    pub name: String,
    pub hoist: Option<String>,
    pub range: ByteRange,
    pub span: Span,
}

pub open spec fn scope_word() -> Seq<char> {
    seq!['s', 'c', 'o', 'p', 'e']
}

pub open spec fn definition_word() -> Seq<char> {
    seq!['d', 'e', 'f', 'i', 'n', 'i', 't', 'i', 'o', 'n']
}

pub open spec fn reference_word() -> Seq<char> {
    seq!['r', 'e', 'f', 'e', 'r', 'e', 'n', 'c', 'e']
}

pub open spec fn starts_with(s: Seq<char>, p: Seq<char>) -> bool {
    p.len() <= s.len() && s.subrange(0, p.len() as int) == p
}

/// The kind a capture name gives: what follows `word.`, or the whole name
/// where there is no such separator.
pub open spec fn kind_after(name: Seq<char>, word: Seq<char>) -> Seq<char> {
    if starts_with(name, word.push('.')) {
        name.subrange(word.len() + 1 as int, name.len() as int)
    } else {
        name
    }
}

/// The class and kind of a capture name, or nothing for a name that is
/// discarded.
pub open spec fn classification(name: Seq<char>) -> Option<(CaptureClass, Seq<char>)> {
    if starts_with(name, scope_word()) {
        Some((CaptureClass::Scope, kind_after(name, scope_word())))
    } else if starts_with(name, definition_word()) {
        Some((CaptureClass::Definition, kind_after(name, definition_word())))
    } else if starts_with(name, reference_word()) {
        Some((CaptureClass::Reference, kind_after(name, reference_word())))
    } else {
        None
    }
}

/// Whether `s` begins with `p`.
fn has_prefix(s: &str, p: &str) -> (r: bool)
    ensures
        r == starts_with(s@, p@),
{
    let n = p.unicode_len();
    if n > s.unicode_len() {
        return false;
    }
    let mut i: usize = 0;
    while i < n
        invariant
            n == p@.len() <= s@.len(),
            i <= n,
            s@.subrange(0, i as int) == p@.subrange(0, i as int),
        decreases n - i,
    {
        if s.get_char(i) != p.get_char(i) {
            assert(s@.subrange(0, n as int)[i as int] != p@[i as int]);
            return false;
        }
        assert(s@.subrange(0, i + 1) == s@.subrange(0, i as int).push(s@[i as int]));
        assert(p@.subrange(0, i + 1) == p@.subrange(0, i as int).push(p@[i as int]));
        i = i + 1;
    }
    assert(p@.subrange(0, n as int) == p@);
    true
}

/// The kind that follows `dotted` (a class word and its separator) in
/// `name`, or the whole name.
fn kind_of(name: &str, dotted: &str) -> (r: String)
    ensures
        starts_with(name@, dotted@) ==> r@ == name@.subrange(dotted@.len() as int, name@.len() as int),
        !starts_with(name@, dotted@) ==> r@ == name@,
{
    if has_prefix(name, dotted) {
        name.substring_char(dotted.unicode_len(), name.unicode_len()).to_owned()
    } else {
        name.to_owned()
    }
}

/// The class of a capture name and the kind it names: `scope`,
/// `definition` and `reference`, each optionally followed by `.` and a
/// kind; any other name is discarded.
pub fn classify(name: &str) -> (r: Option<(CaptureClass, String)>)
    ensures
        match r {
            Some((c, k)) => classification(name@) == Some((c, k@)),
            None => classification(name@) is None,
        },
{
    proof {
        reveal_strlit("scope");
        reveal_strlit("scope.");
        reveal_strlit("definition");
        reveal_strlit("definition.");
        reveal_strlit("reference");
        reveal_strlit("reference.");
        assert(scope_word() == "scope"@);
        assert(definition_word() == "definition"@);
        assert(reference_word() == "reference"@);
        assert(scope_word().push('.') == "scope."@);
        assert(definition_word().push('.') == "definition."@);
        assert(reference_word().push('.') == "reference."@);
    }
    if has_prefix(name, "scope") {
        Some((CaptureClass::Scope, kind_of(name, "scope.")))
    } else if has_prefix(name, "definition") {
        Some((CaptureClass::Definition, kind_of(name, "definition.")))
    } else if has_prefix(name, "reference") {
        Some((CaptureClass::Reference, kind_of(name, "reference.")))
    } else {
        None
    }
}

pub open spec fn opt_view(o: Option<String>) -> Option<Seq<char>> {
    match o {
        Some(s) => Some(s@),
        None => None,
    }
}

/// The scope captures among the first `n` raw captures: kind, range, span.
pub open spec fn scopes_among(raw: Seq<RawCapture>, n: int) -> Seq<(Seq<char>, ByteRange, Span)>
    decreases n,
{
    if n <= 0 {
        Seq::empty()
    } else {
        let c = raw[n - 1];
        scopes_among(raw, n - 1) + match classification(c.name@) {
            Some((CaptureClass::Scope, k)) => seq![(k, c.range, c.span)],
            _ => Seq::empty(),
        }
    }
}

/// The definition captures among the first `n` raw captures: kind, hoist
/// target, range, span.
pub open spec fn definitions_among(raw: Seq<RawCapture>, n: int) -> Seq<
    (Seq<char>, Option<Seq<char>>, ByteRange, Span),
>
    decreases n,
{
    if n <= 0 {
        Seq::empty()
    } else {
        let c = raw[n - 1];
        definitions_among(raw, n - 1) + match classification(c.name@) {
            Some((CaptureClass::Definition, k)) => seq![(k, opt_view(c.hoist), c.range, c.span)],
            _ => Seq::empty(),
        }
    }
}

/// The reference captures among the first `n` raw captures: kind, range,
/// span.
pub open spec fn references_among(raw: Seq<RawCapture>, n: int) -> Seq<(Seq<char>, ByteRange, Span)>
    decreases n,
{
    if n <= 0 {
        Seq::empty()
    } else {
        let c = raw[n - 1];
        references_among(raw, n - 1) + match classification(c.name@) {
            Some((CaptureClass::Reference, k)) => seq![(k, c.range, c.span)],
            _ => Seq::empty(),
        }
    }
}

pub open spec fn scope_capture_view(c: ScopeCapture) -> (Seq<char>, ByteRange, Span) {
    (c.kind@, c.range, c.span)
}

pub open spec fn def_capture_view(c: DefCapture) -> (Seq<char>, Option<Seq<char>>, ByteRange, Span) {
    (c.kind@, opt_view(c.hoist), c.range, c.span)
}

pub open spec fn ref_capture_view(c: RefCapture) -> (Seq<char>, ByteRange, Span) {
    (c.kind@, c.range, c.span)
}

fn copy_hoist(h: &Option<String>) -> (r: Option<String>)
    ensures
        opt_view(r) == opt_view(*h),
{
    match h {
        Some(s) => Some(s.clone()),
        None => None,
    }
}

/// Splits the raw captures into the three lists, keeping their order and
/// discarding captures of any other name.
pub fn collect_captures(raw: &Vec<RawCapture>) -> (r: Captures)
    ensures
        r.scopes@.map_values(|c: ScopeCapture| scope_capture_view(c)) == scopes_among(
            raw@,
            raw@.len() as int,
        ),
        r.definitions@.map_values(|c: DefCapture| def_capture_view(c)) == definitions_among(
            raw@,
            raw@.len() as int,
        ),
        r.references@.map_values(|c: RefCapture| ref_capture_view(c)) == references_among(
            raw@,
            raw@.len() as int,
        ),
{
    let mut scopes: Vec<ScopeCapture> = Vec::new();
    let mut definitions: Vec<DefCapture> = Vec::new();
    let mut references: Vec<RefCapture> = Vec::new();
    let mut i: usize = 0;
    while i < raw.len()
        invariant
            i <= raw@.len(),
            scopes@.map_values(|c: ScopeCapture| scope_capture_view(c)) == scopes_among(raw@, i as int),
            definitions@.map_values(|c: DefCapture| def_capture_view(c)) == definitions_among(
                raw@,
                i as int,
            ),
            references@.map_values(|c: RefCapture| ref_capture_view(c)) == references_among(
                raw@,
                i as int,
            ),
        decreases raw@.len() - i,
    {
        let c = &raw[i];
        let ghost s0 = scopes@;
        let ghost d0 = definitions@;
        let ghost r0 = references@;
        match classify(c.name.as_str()) {
            Some((CaptureClass::Scope, kind)) => {
                scopes.push(ScopeCapture { kind, range: c.range, span: c.span });
                assert(scopes@ == s0.push(scopes@.last()));
            },
            Some((CaptureClass::Definition, kind)) => {
                definitions.push(
                    DefCapture { kind, hoist: copy_hoist(&c.hoist), range: c.range, span: c.span },
                );
                assert(definitions@ == d0.push(definitions@.last()));
            },
            Some((CaptureClass::Reference, kind)) => {
                references.push(RefCapture { kind, range: c.range, span: c.span });
                assert(references@ == r0.push(references@.last()));
            },
            None => {},
        }
        proof {
            assert(scopes@.map_values(|c: ScopeCapture| scope_capture_view(c)) == scopes_among(raw@, i + 1));
            assert(definitions@.map_values(|c: DefCapture| def_capture_view(c)) == definitions_among(raw@, i + 1));
            assert(references@.map_values(|c: RefCapture| ref_capture_view(c)) == references_among(raw@, i + 1));
        }
        i = i + 1;
    }
    Captures { scopes, definitions, references }
}

} // verus!
