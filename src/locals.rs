//! The entry point: from classified captures to occurrences.
use vstd::prelude::*;
use crate::model::{tree_wf, ByteRange, Captures, DefCapture, LocalsError, Occurrence, ScopeTree};
use crate::resolve::{ascending, reference_occurrences};
use crate::order::{def_key, sorted_order};
use crate::names::interned;
use crate::tree::{
    captures_in_bounds, captures_stored, definitions_emitted, distinct_entries, fresh_resolver, has_invalid_text,
    hoists_land, has_definition_past_end, invalid_range, names_match, scopes_nest, LocalResolver,
};

verus! {

/// The start byte of each occurrence.
pub open spec fn occurrence_starts(occs: Seq<Occurrence>) -> Seq<usize> {
    occs.map_values(|o: Occurrence| o.range.start)
}

/// `v` is a resolution of `source` with captures `c`: first one definition
/// occurrence per capture, numbered from 1 in order of position, then the
/// reference occurrences of some scope tree, rooted at the whole source,
/// that stores `c` as
/// `captures_stored` describes: scope `x` is sorted scope capture `x - 1`,
/// every capture is stored exactly once (in the innermost covering scope,
/// and with the last containing scope as parent, for nested or disjoint
/// scope captures), lists are sorted, each scope lies within its parent,
/// hoisted definitions sit in a scope of their kind or the root, and names
/// are indices of distinct texts. References that start where a definition
/// does are skipped.
pub open spec fn is_resolution(v: Seq<Occurrence>, source: Seq<u8>, c: Captures) -> bool {
    let defs = c.definitions@;
    let n = defs.len() as int;
    let d = v.take(n);
    &&& n <= v.len()
    &&& definitions_emitted(d, occurrence_starts(d), defs)
    &&& exists|t: ScopeTree, table: Seq<Seq<char>>|
        {
            &&& tree_wf(t)
            &&& t.scopes@[0].range == (ByteRange { start: 0, end: source.len() as usize })
            &&& captures_stored(t, c)
            &&& scopes_nest(t)
            &&& hoists_land(t, c.definitions@)
            &&& names_match(t, table, source)
            &&& distinct_entries(table)
            &&& v.skip(n) == reference_occurrences(t, occurrence_starts(d))
        }
}

/// The limits under which a file can be resolved: every definition and
/// reference lies in the source, and their number leaves room in the
/// 32-bit name table.
pub open spec fn resolvable(source: Seq<u8>, c: Captures) -> bool {
    &&& captures_in_bounds(c, source.len())
    &&& c.definitions@.len() + c.references@.len() + 2 < 0xffff_ffffusize
}

/// Definitions are emitted in order of their start bytes.
proof fn lemma_emitted_starts_ascend(occs: Seq<Occurrence>, starts: Seq<usize>, defs: Seq<DefCapture>)
    requires
        definitions_emitted(occs, starts, defs),
    ensures
        ascending(starts),
{
    let o = choose|o: Seq<usize>|
        {
            &&& sorted_order(o, defs.len(), def_key(defs))
            &&& occs.len() == defs.len()
            &&& starts.len() == defs.len()
            &&& forall|k: int|
                0 <= k < defs.len() ==> #[trigger] occs[k] == crate::model::definition_occurrence(
                    defs[o[k] as int],
                    (k + 1) as usize,
                )
            &&& forall|k: int| 0 <= k < defs.len() ==> #[trigger] starts[k] == defs[o[k] as int].range.start
        };
    assert forall|i: int, j: int| 0 <= i < j < starts.len() implies #[trigger] starts[i] <= #[trigger] starts[j] by {
        assert(starts[i] == defs[o[i] as int].range.start);
        assert(starts[j] == defs[o[j] as int].range.start);
        let a = def_key(defs)(o[i] as int);
        let b = def_key(defs)(o[j] as int);
        assert(a.0 < b.0 || (a.0 == b.0 && (a.1 < b.1 || (a.1 == b.1 && o[i] < o[j]))));
    }
}

impl LocalResolver {
    /// Builds the scope tree and resolves every reference against it.
    pub fn process(self, source: &[u8], c: &Captures) -> (r: Result<Vec<Occurrence>, LocalsError>)
        requires
            fresh_resolver(self),
            resolvable(source@, *c),
        ensures
            (r matches Err(LocalsError::InvalidUtf8 { .. })) <==> has_invalid_text(source@, *c),
            (r matches Err(LocalsError::UnconsumedDefinition { .. })) <==> (!has_invalid_text(source@, *c)
                && has_definition_past_end(source@, *c)),
            r matches Err(LocalsError::UnconsumedDefinition { start }) ==> exists|i: int|
                0 <= i < c.definitions@.len() && #[trigger] c.definitions@[i].range.start == start && start
                    >= source@.len(),
            r matches Err(LocalsError::InvalidUtf8 { start, end }) ==> invalid_range(
                source@,
                *c,
                ByteRange { start, end },
            ),
            r matches Ok(v) ==> is_resolution(v@, source@, *c),
    {
        let mut resolver = self;
        match resolver.build_tree(source, c) {
            Ok(()) => {},
            Err(e) => {
                return Err(e);
            },
        }
        let ghost defs_part = resolver.occurrences@;
        let ghost starts = resolver.definition_start_bytes@;
        let ghost t = resolver.tree;
        let ghost table = interned(resolver.names);
        proof {
            lemma_emitted_starts_ascend(resolver.occurrences@, starts, c.definitions@);
        }
        resolver.resolve_references();
        proof {
            let n = c.definitions@.len() as int;
            let v = resolver.occurrences@;
            assert(v.take(n) == defs_part);
            assert(v.skip(n) == reference_occurrences(t, starts));
            let o = choose|o: Seq<usize>|
                {
                    &&& crate::order::sorted_order(o, c.definitions@.len(), crate::order::def_key(c.definitions@))
                    &&& defs_part.len() == c.definitions@.len()
                    &&& starts.len() == c.definitions@.len()
                    &&& forall|k: int|
                        0 <= k < c.definitions@.len() ==> #[trigger] defs_part[k]
                            == crate::model::definition_occurrence(c.definitions@[o[k] as int], (k + 1) as usize)
                    &&& forall|k: int|
                        0 <= k < c.definitions@.len() ==> #[trigger] starts[k] == c.definitions@[o[k] as int].range.start
                };
            assert(occurrence_starts(defs_part) == starts) by {
                assert forall|k: int| 0 <= k < n implies occurrence_starts(defs_part)[k] == starts[k] by {
                    assert(defs_part[k] == crate::model::definition_occurrence(c.definitions@[o[k] as int], (k + 1) as usize));
                    assert(starts[k] == c.definitions@[o[k] as int].range.start);
                }
            }
            assert(tree_wf(t) && t.scopes@[0].range == (ByteRange { start: 0, end: source@.len() as usize }) && captures_stored(t, *c) && scopes_nest(t) && hoists_land(t, c.definitions@) && names_match(t, table, source@) && distinct_entries(table)
                && v.skip(n) == reference_occurrences(t, occurrence_starts(v.take(n))));
        }
        Ok(resolver.occurrences)
    }
}

/// Resolves the local bindings of one file whose captures are `c`, with a
/// fresh scope arena and name table.
pub fn resolve_locals(source: &[u8], c: &Captures) -> (r: Result<Vec<Occurrence>, LocalsError>)
    requires
        resolvable(source@, *c),
    ensures
        (r matches Err(LocalsError::InvalidUtf8 { .. })) <==> has_invalid_text(source@, *c),
        (r matches Err(LocalsError::UnconsumedDefinition { .. })) <==> (!has_invalid_text(source@, *c)
            && has_definition_past_end(source@, *c)),
        r matches Err(LocalsError::UnconsumedDefinition { start }) ==> exists|i: int|
            0 <= i < c.definitions@.len() && #[trigger] c.definitions@[i].range.start == start && start
            >= source@.len(),
        r matches Err(LocalsError::InvalidUtf8 { start, end }) ==> invalid_range(
            source@,
            *c,
            ByteRange { start, end },
        ),
        r matches Ok(v) ==> is_resolution(v@, source@, *c),
{
    let resolver = LocalResolver::new();
    resolver.process(source, c)
}

} // verus!
