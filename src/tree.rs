//! Building the scope tree in one sweep over the sorted captures.
use vstd::prelude::*;
use crate::model::{
    definition_occurrence, tree_wf, ByteRange, Captures, DefCapture, Definition, LocalsError, Occurrence,
    RefCapture, Reference, Scope, ScopeCapture, ScopeTree,
};
use crate::names::{interned, source_text, utf8_decode, NameTable};
use crate::order::{definition_order, reference_order, scope_order, sorted_order, def_key, ref_key, scope_key};

verus! {

/// The text of the bytes of `r`, if they are UTF-8.
pub open spec fn text_of(source: Seq<u8>, r: ByteRange) -> Option<Seq<char>> {
    utf8_decode(source.subrange(r.start as int, r.end as int))
}

pub open spec fn in_bounds(r: ByteRange, len: nat) -> bool {
    r.start <= r.end <= len
}

/// Every scope, definition and reference lies within a source of `len`
/// bytes.
pub open spec fn captures_in_bounds(c: Captures, len: nat) -> bool {
    &&& forall|i: int| 0 <= i < c.scopes@.len() ==> in_bounds(#[trigger] c.scopes@[i].range, len)
    &&& forall|i: int|
        0 <= i < c.definitions@.len() ==> in_bounds(#[trigger] c.definitions@[i].range, len)
    &&& forall|i: int|
        0 <= i < c.references@.len() ==> in_bounds(#[trigger] c.references@[i].range, len)
}

/// Some definition or reference of `c` that starts before the end of the
/// source is not UTF-8 text.
pub open spec fn has_invalid_text(source: Seq<u8>, c: Captures) -> bool {
    ||| exists|i: int|
        0 <= i < c.definitions@.len() && c.definitions@[i].range.start < source.len() && (
        #[trigger] text_of(source, c.definitions@[i].range)) is None
    ||| exists|i: int|
        0 <= i < c.references@.len() && c.references@[i].range.start < source.len() && (
        #[trigger] text_of(source, c.references@[i].range)) is None
}

/// Some definition of `c` starts at or after the end of the source.
pub open spec fn has_definition_past_end(source: Seq<u8>, c: Captures) -> bool {
    exists|i: int| 0 <= i < c.definitions@.len() && #[trigger] c.definitions@[i].range.start >= source.len()
}

/// The scope a definition hoisted to `kind` lands in when it is drained
/// into scope `s`: the nearest proper ancestor of that kind, else the root.
pub open spec fn hoist_target(t: ScopeTree, s: int, kind: Seq<char>) -> int
    decreases s,
{
    if 0 <= s < t.scopes@.len() {
        match t.scopes@[s].parent {
            Some(p) => if p < s {
                if t.scopes@[p as int].kind@ == kind {
                    p as int
                } else {
                    hoist_target(t, p as int, kind)
                }
            } else {
                s
            },
            None => s,
        }
    } else {
        s
    }
}

/// The state of one file's resolution: the scope arena, the name table,
/// and the occurrences emitted so far.
pub struct LocalResolver {
    pub tree: ScopeTree,
    pub names: NameTable,
    pub definition_id_supply: usize,
    /// Start byte of every definition drained so far, in drain order.
    pub definition_start_bytes: Vec<usize>,
    pub occurrences: Vec<Occurrence>,
    /// Where the definition with id `k + 1` is stored: scope, hoisted list
    /// or not, index.
    pub def_locations: Ghost<Seq<(int, bool, int)>>,
    /// Where the reference at each sweep position is stored: scope, index.
    pub ref_locations: Ghost<Seq<(int, int)>>,
}

/// `name` is the index in `table` of the text of `r`.
pub open spec fn named(table: Seq<Seq<char>>, source: Seq<u8>, r: ByteRange, name: usize) -> bool {
    name < table.len() && text_of(source, r) == Some(table[name as int])
}

/// No string is held twice, so two names are equal exactly when their
/// texts are.
pub open spec fn distinct_entries(table: Seq<Seq<char>>) -> bool {
    forall|i: int, j: int| 0 <= i < j < table.len() ==> #[trigger] table[i] != #[trigger] table[j]
}

/// Every definition and reference stored in the tree is named by the
/// index of its text in `table`.
pub open spec fn names_match(t: ScopeTree, table: Seq<Seq<char>>, source: Seq<u8>) -> bool {
    &&& forall|s: int, k: int|
        0 <= s < t.scopes@.len() && 0 <= k < t.scopes@[s].hoisted_definitions@.len() ==> named(
            table,
            source,
            (#[trigger] t.scopes@[s].hoisted_definitions@[k]).range,
            t.scopes@[s].hoisted_definitions@[k].name,
        )
    &&& forall|s: int, k: int|
        0 <= s < t.scopes@.len() && 0 <= k < t.scopes@[s].definitions@.len() ==> named(
            table,
            source,
            (#[trigger] t.scopes@[s].definitions@[k]).range,
            t.scopes@[s].definitions@[k].name,
        )
    &&& forall|s: int, k: int|
        0 <= s < t.scopes@.len() && 0 <= k < t.scopes@[s].references@.len() ==> named(
            table,
            source,
            (#[trigger] t.scopes@[s].references@[k]).range,
            t.scopes@[s].references@[k].name,
        )
}

/// `inner` lies within `outer`.
pub open spec fn range_contains(outer: ByteRange, inner: ByteRange) -> bool {
    outer.start <= inner.start && inner.end <= outer.end
}

/// Every scope lies within its parent.
pub open spec fn scopes_nest(t: ScopeTree) -> bool {
    forall|x: int|
        0 < x < t.scopes@.len() ==> match (#[trigger] t.scopes@[x]).parent {
            Some(p) => range_contains(t.scopes@[p as int].range, t.scopes@[x].range),
            None => true,
        }
}

/// The two trees have the same scopes, with the same parents and ranges;
/// only what the scopes hold may differ.
pub open spec fn same_shape(t1: ScopeTree, t2: ScopeTree) -> bool {
    &&& t1.scopes@.len() == t2.scopes@.len()
    &&& forall|x: int|
        0 <= x < t1.scopes@.len() ==> (#[trigger] t1.scopes@[x]).parent == t2.scopes@[x].parent
            && t1.scopes@[x].range == t2.scopes@[x].range && t1.scopes@[x].kind@ == t2.scopes@[x].kind@
            && t1.scopes@[x].children@ == t2.scopes@[x].children@
}

/// `children` of each scope lists exactly the scopes whose parent it is,
/// in arena order.
pub open spec fn children_ok(t: ScopeTree) -> bool {
    &&& forall|y: int, j: int|
        0 <= y < t.scopes@.len() && 0 <= j < t.scopes@[y].children@.len() ==> {
            let x = (#[trigger] t.scopes@[y].children@[j]) as int;
            0 < x < t.scopes@.len() && t.scopes@[x].parent == Some(y as usize)
        }
    &&& forall|y: int, j1: int, j2: int|
        0 <= y < t.scopes@.len() && 0 <= j1 < j2 < t.scopes@[y].children@.len() ==> (
        #[trigger] t.scopes@[y].children@[j1]) < (#[trigger] t.scopes@[y].children@[j2])
    &&& forall|x: int| 0 < x < t.scopes@.len() ==> #[trigger] listed_as_child(t, x)
}

/// Scope `x` appears in its parent's `children`.
pub open spec fn listed_as_child(t: ScopeTree, x: int) -> bool {
    match t.scopes@[x].parent {
        Some(p) => exists|j: int|
            0 <= j < t.scopes@[p as int].children@.len() && #[trigger] t.scopes@[p as int].children@[j] == x,
        None => false,
    }
}

proof fn lemma_children_same(t1: ScopeTree, t2: ScopeTree)
    requires
        children_ok(t1),
        tree_wf(t1),
        same_shape(t2, t1),
    ensures
        children_ok(t2),
{
    assert forall|y: int, j: int| 0 <= y < t2.scopes@.len() && 0 <= j < t2.scopes@[y].children@.len() implies {
        let x = (#[trigger] t2.scopes@[y].children@[j]) as int;
        0 < x < t2.scopes@.len() && t2.scopes@[x].parent == Some(y as usize)
    } by {
        assert(t2.scopes@[y].children@ == t1.scopes@[y].children@);
        let x = t1.scopes@[y].children@[j] as int;
        assert(t2.scopes@[x].parent == t1.scopes@[x].parent);
    }
    assert forall|y: int, j1: int, j2: int|
        0 <= y < t2.scopes@.len() && 0 <= j1 < j2 < t2.scopes@[y].children@.len() implies (
        #[trigger] t2.scopes@[y].children@[j1]) < (#[trigger] t2.scopes@[y].children@[j2]) by {
        assert(t1.scopes@[y].children@ == t2.scopes@[y].children@);
    }
    assert forall|x: int| 0 < x < t2.scopes@.len() implies #[trigger] listed_as_child(t2, x) by {
        assert(listed_as_child(t1, x));
        assert(t1.scopes@[x].parent == t2.scopes@[x].parent);
        let p = t1.scopes@[x].parent->0 as int;
        assert(0 <= p < x);
        assert(t1.scopes@[p].children@ == t2.scopes@[p].children@);
        let j = choose|j: int| 0 <= j < t1.scopes@[p].children@.len() && #[trigger] t1.scopes@[p].children@[j] == x;
        assert(t2.scopes@[p].children@[j] == x);
    }
}

proof fn lemma_children_push(t1: ScopeTree, t2: ScopeTree, cur: int)
    requires
        children_ok(t1),
        tree_wf(t1),
        0 <= cur < t1.scopes@.len(),
        t2.scopes@.len() == t1.scopes@.len() + 1 <= usize::MAX,
        forall|y: int|
            0 <= y < t1.scopes@.len() ==> (#[trigger] t2.scopes@[y]).parent == t1.scopes@[y].parent && (y != cur
                ==> t2.scopes@[y].children@ == t1.scopes@[y].children@),
        t2.scopes@[cur].children@ == t1.scopes@[cur].children@.push(t1.scopes@.len() as usize),
        t2.scopes@[t1.scopes@.len() as int].parent == Some(cur as usize),
        t2.scopes@[t1.scopes@.len() as int].children@.len() == 0,
    ensures
        children_ok(t2),
{
    let idx = t1.scopes@.len() as int;
    assert forall|y: int, j: int| 0 <= y < t2.scopes@.len() && 0 <= j < t2.scopes@[y].children@.len() implies {
        let x = (#[trigger] t2.scopes@[y].children@[j]) as int;
        0 < x < t2.scopes@.len() && t2.scopes@[x].parent == Some(y as usize)
    } by {
        if y == cur && j == t1.scopes@[cur].children@.len() {
            assert(t2.scopes@[y].children@[j] == idx as usize);
        } else if y < idx {
            assert(t2.scopes@[y].children@[j] == t1.scopes@[y].children@[j]);
            let x = t1.scopes@[y].children@[j] as int;
            assert(t2.scopes@[x].parent == t1.scopes@[x].parent);
        }
    }
    assert forall|y: int, j1: int, j2: int|
        0 <= y < t2.scopes@.len() && 0 <= j1 < j2 < t2.scopes@[y].children@.len() implies (
        #[trigger] t2.scopes@[y].children@[j1]) < (#[trigger] t2.scopes@[y].children@[j2]) by {
        if y < idx {
            assert(t2.scopes@[y].children@[j1] == t1.scopes@[y].children@[j1]);
            if j2 < t1.scopes@[y].children@.len() {
                assert(t2.scopes@[y].children@[j2] == t1.scopes@[y].children@[j2]);
            } else {
                let x = t1.scopes@[y].children@[j1] as int;
                assert(0 < x < idx);
                assert(y == cur);
                assert(t2.scopes@[y].children@[j2] == idx as usize);
            }
        }
    }
    assert forall|x: int| 0 < x < t2.scopes@.len() implies #[trigger] listed_as_child(t2, x) by {
        if x == idx {
            assert(t2.scopes@[cur].children@[t1.scopes@[cur].children@.len() as int] == x);
        } else {
            assert(listed_as_child(t1, x));
            let p = t1.scopes@[x].parent->0 as int;
            assert(0 <= p < x);
            let j = choose|j: int| 0 <= j < t1.scopes@[p].children@.len() && #[trigger] t1.scopes@[p].children@[j] == x;
            assert(t2.scopes@[p].children@[j] == x);
        }
    }
}

/// `d` stems from a definition capture with a hoist kind, and scope `s`
/// is of that kind or is the root.
pub open spec fn hoisted_from(t: ScopeTree, defs: Seq<DefCapture>, s: int, d: Definition) -> bool {
    exists|i: int|
        0 <= i < defs.len() && defs[i].range == d.range && match defs[i].hoist {
            Some(h) => s == 0 || t.scopes@[s].kind@ == h@,
            None => false,
        }
}

/// Every hoisted definition sits in a scope of the kind its capture asked
/// for, or in the root.
pub open spec fn hoists_land(t: ScopeTree, defs: Seq<DefCapture>) -> bool {
    forall|s: int, k: int|
        0 <= s < t.scopes@.len() && 0 <= k < t.scopes@[s].hoisted_definitions@.len()
            ==> #[trigger] hoisted_from(t, defs, s, t.scopes@[s].hoisted_definitions@[k])
}

/// The hoist target of a scope is the root or a scope of the kind asked for.
proof fn lemma_hoist_target_kind(t: ScopeTree, a: int, kind: Seq<char>)
    requires
        tree_wf(t),
        0 <= a < t.scopes@.len(),
    ensures
        0 <= hoist_target(t, a, kind) < t.scopes@.len(),
        hoist_target(t, a, kind) == 0 || t.scopes@[hoist_target(t, a, kind)].kind@ == kind,
    decreases a,
{
    if a > 0 {
        let p = t.scopes@[a].parent->0 as int;
        if t.scopes@[p].kind@ != kind {
            lemma_hoist_target_kind(t, p, kind);
        }
    }
}

/// Hoisted definitions stay where they were when their lists, and the
/// kinds of the scopes holding them, are unchanged.
proof fn lemma_hoists_kept(t1: ScopeTree, t2: ScopeTree, defs: Seq<DefCapture>)
    requires
        hoists_land(t1, defs),
        t1.scopes@.len() <= t2.scopes@.len(),
        forall|x: int|
            0 <= x < t1.scopes@.len() ==> (#[trigger] t2.scopes@[x]).kind@ == t1.scopes@[x].kind@
                && t2.scopes@[x].hoisted_definitions@ == t1.scopes@[x].hoisted_definitions@,
        forall|x: int|
            t1.scopes@.len() <= x < t2.scopes@.len() ==> (#[trigger] t2.scopes@[x]).hoisted_definitions@.len() == 0,
    ensures
        hoists_land(t2, defs),
{
    assert forall|s: int, k: int|
        0 <= s < t2.scopes@.len() && 0 <= k < t2.scopes@[s].hoisted_definitions@.len()
            implies #[trigger] hoisted_from(t2, defs, s, t2.scopes@[s].hoisted_definitions@[k]) by {
        assert(t2.scopes@[s].kind@ == t1.scopes@[s].kind@);
        assert(hoisted_from(t1, defs, s, t1.scopes@[s].hoisted_definitions@[k]));
        let i = choose|i: int|
            0 <= i < defs.len() && defs[i].range == t1.scopes@[s].hoisted_definitions@[k].range && match defs[i].hoist {
                Some(h) => s == 0 || t1.scopes@[s].kind@ == h@,
                None => false,
            };
        assert(t2.scopes@[s].hoisted_definitions@[k] == t1.scopes@[s].hoisted_definitions@[k]);
    }
}

/// Appending to one scope's hoisted definitions a definition that stems
/// from a capture hoisted to that scope's kind keeps every hoist in place.
proof fn lemma_hoists_push(t1: ScopeTree, t2: ScopeTree, defs: Seq<DefCapture>, target: int, i: int)
    requires
        hoists_land(t1, defs),
        0 <= target < t1.scopes@.len() == t2.scopes@.len(),
        forall|x: int| 0 <= x < t1.scopes@.len() ==> (#[trigger] t2.scopes@[x]).kind@ == t1.scopes@[x].kind@,
        forall|x: int|
            0 <= x < t1.scopes@.len() && x != target ==> (#[trigger] t2.scopes@[x]).hoisted_definitions@
                == t1.scopes@[x].hoisted_definitions@,
        t2.scopes@[target].hoisted_definitions@.len() == t1.scopes@[target].hoisted_definitions@.len() + 1,
        forall|k: int|
            0 <= k < t1.scopes@[target].hoisted_definitions@.len() ==> #[trigger] t2.scopes@[target].hoisted_definitions@[k]
                == t1.scopes@[target].hoisted_definitions@[k],
        0 <= i < defs.len(),
        defs[i].range == t2.scopes@[target].hoisted_definitions@.last().range,
        defs[i].hoist matches Some(h) && (target == 0 || t1.scopes@[target].kind@ == h@),
    ensures
        hoists_land(t2, defs),
{
    assert forall|s: int, k: int|
        0 <= s < t2.scopes@.len() && 0 <= k < t2.scopes@[s].hoisted_definitions@.len()
            implies #[trigger] hoisted_from(t2, defs, s, t2.scopes@[s].hoisted_definitions@[k]) by {
        if s == target && k == t1.scopes@[target].hoisted_definitions@.len() {
            assert(defs[i].range == t2.scopes@[s].hoisted_definitions@[k].range);
        } else {
            assert(t2.scopes@[s].hoisted_definitions@[k] == t1.scopes@[s].hoisted_definitions@[k]);
            assert(hoisted_from(t1, defs, s, t1.scopes@[s].hoisted_definitions@[k]));
            let j = choose|j: int|
                0 <= j < defs.len() && defs[j].range == t1.scopes@[s].hoisted_definitions@[k].range && match defs[j].hoist {
                    Some(h) => s == 0 || t1.scopes@[s].kind@ == h@,
                    None => false,
                };
            assert(defs[j].range == t2.scopes@[s].hoisted_definitions@[k].range);
        }
    }
}

/// Arena scope `x >= 1` is the scope capture `so[x - 1]` (range and kind),
/// `so` being the sorted scope order. Every definition capture is stored,
/// with the id of its occurrence, and
/// every reference capture that starts before the root's end is stored
/// (the others are dropped), each as drained into a scope: `o`
/// and `ro` are the sweep orders, `dp` and `rp` the drain scopes. With
/// nested or disjoint scope captures, each drain scope is the innermost
/// scope covering the item's start. Every stored definition is the stored
/// form of the capture its id names; each id is stored exactly once, at
/// `dl[id - 1]`, in a hoisted list exactly when its capture has a hoist
/// kind. Each stored reference is stored once, at `rl` of its sweep
/// position. Every `definitions` and `references` list is sorted by start,
/// and `children` lists exactly the scopes whose parent it is. Each scope
/// lies within its parent; with nested or disjoint scope captures, the
/// parent of a non-empty scope is the last earlier scope containing it (the
/// root if none), so of two equal ranges the one captured first is the
/// outer.
pub open spec fn captures_stored(t: ScopeTree, c: Captures) -> bool {
    exists|
        so: Seq<usize>,
        o: Seq<usize>,
        ro: Seq<usize>,
        dp: Seq<int>,
        rp: Seq<int>,
        dl: Seq<(int, bool, int)>,
        rl: Seq<(int, int)>,
    | #[trigger] captures_stored_with(t, c, so, o, ro, dp, rp, dl, rl)
}

/// `captures_stored` with its witnesses named.
pub open spec fn captures_stored_with(
    t: ScopeTree,
    c: Captures,
    so: Seq<usize>,
    o: Seq<usize>,
    ro: Seq<usize>,
    dp: Seq<int>,
    rp: Seq<int>,
    dl: Seq<(int, bool, int)>,
    rl: Seq<(int, int)>,
) -> bool {
    &&& sorted_order(so, c.scopes@.len(), scope_key(c.scopes@))
    &&& t.scopes@.len() == c.scopes@.len() + 1
    &&& forall|x: int|
        1 <= x < t.scopes@.len() ==> (#[trigger] t.scopes@[x]).range == c.scopes@[so[x - 1] as int].range
            && t.scopes@[x].kind@ == c.scopes@[so[x - 1] as int].kind@
    &&& sorted_order(o, c.definitions@.len(), def_key(c.definitions@))
    &&& sorted_order(ro, c.references@.len(), ref_key(c.references@))
    &&& dp.len() == c.definitions@.len()
    &&& rp.len() <= c.references@.len()
    &&& forall|k: int|
        0 <= k < rp.len() ==> #[trigger] c.references@[ro[k] as int].range.start < t.scopes@[0].range.end
    &&& forall|k: int|
        rp.len() <= k < c.references@.len() ==> #[trigger] c.references@[ro[k] as int].range.start
            >= t.scopes@[0].range.end
    &&& defs_placed(t, c.definitions@, o, dp)
    &&& refs_placed(t, c.references@, ro, rp)
    &&& ids_match(t, c.definitions@, o, c.definitions@.len() as int)
    &&& dl.len() == c.definitions@.len()
    &&& defs_located(t, c.definitions@, o, dl)
    &&& rl.len() == rp.len()
    &&& refs_located(t, c.references@, ro, rl)
    &&& lists_sorted(t)
    &&& children_ok(t)
    &&& scopes_nest(t)
    &&& laminar(c.scopes@) ==> forall|x: int|
        1 <= x < t.scopes@.len() && srange(c, so, x).start < srange(c, so, x).end
            ==> #[trigger] last_container(t, c, so, x)
    &&& laminar(c.scopes@) ==> forall|k: int|
        0 <= k < dp.len() ==> #[trigger] dp[k] == innermost(t, c.definitions@[o[k] as int].range.start)
    &&& laminar(c.scopes@) ==> forall|k: int|
        0 <= k < rp.len() ==> #[trigger] rp[k] == innermost(t, c.references@[ro[k] as int].range.start)
}

/// A resolver with an empty arena and nothing emitted yet.
pub open spec fn fresh_resolver(s: LocalResolver) -> bool {
    &&& s.tree.scopes@.len() == 0
    &&& s.def_locations@.len() == 0
    &&& s.ref_locations@.len() == 0
    &&& s.definition_id_supply == 0
    &&& s.occurrences@.len() == 0
    &&& s.definition_start_bytes@.len() == 0
    &&& interned(s.names).len() == 0
}

/// `r` is the range of a definition or reference whose text is not UTF-8.
pub open spec fn invalid_range(source: Seq<u8>, c: Captures, r: ByteRange) -> bool {
    ||| exists|i: int|
        0 <= i < c.definitions@.len() && c.definitions@[i].range == r
            && (#[trigger] text_of(source, c.definitions@[i].range)) is None
    ||| exists|i: int|
        0 <= i < c.references@.len() && c.references@[i].range == r
            && (#[trigger] text_of(source, c.references@[i].range)) is None
}

/// One definition occurrence per definition capture, in the order of
/// start bytes (ties in capture order), numbered 1, 2, ...; `starts` holds
/// their start bytes in the same order.
pub open spec fn definitions_emitted(
    occs: Seq<Occurrence>,
    starts: Seq<usize>,
    defs: Seq<DefCapture>,
) -> bool {
    exists|o: Seq<usize>|
        {
            &&& sorted_order(o, defs.len(), def_key(defs))
            &&& occs.len() == defs.len()
            &&& starts.len() == defs.len()
            &&& forall|k: int|
                0 <= k < defs.len() ==> #[trigger] occs[k] == definition_occurrence(
                    defs[o[k] as int],
                    (k + 1) as usize,
                )
            &&& forall|k: int| 0 <= k < defs.len() ==> #[trigger] starts[k] == defs[o[k] as int].range.start
        }
}

/// Where the sweep stands: `nd` definitions and `nr` references of the
/// sorted streams have been drained.
pub open spec fn sweep_inv(
    s: LocalResolver,
    source: Seq<u8>,
    c: Captures,
    dorder: Seq<usize>,
    rorder: Seq<usize>,
    nd: int,
    nr: int,
) -> bool {
    &&& tree_wf(s.tree)
    &&& 0 <= nd <= dorder.len() == c.definitions@.len()
    &&& 0 <= nr <= rorder.len() == c.references@.len()
    &&& sorted_order(dorder, c.definitions@.len(), def_key(c.definitions@))
    &&& sorted_order(rorder, c.references@.len(), ref_key(c.references@))
    &&& captures_in_bounds(c, source.len())
    &&& c.definitions@.len() + c.references@.len() + 2 < 0xffff_ffffusize
    &&& s.definition_id_supply == nd
    &&& s.occurrences@.len() == nd
    &&& s.definition_start_bytes@.len() == nd
    &&& forall|k: int|
        0 <= k < nd ==> #[trigger] s.occurrences@[k] == definition_occurrence(
            c.definitions@[dorder[k] as int],
            (k + 1) as usize,
        )
    &&& forall|k: int|
        0 <= k < nd ==> #[trigger] s.definition_start_bytes@[k]
            == c.definitions@[dorder[k] as int].range.start
    &&& forall|k: int|
        0 <= k < nd ==> (#[trigger] text_of(source, c.definitions@[dorder[k] as int].range)) is Some
    &&& forall|k: int|
        0 <= k < nr ==> (#[trigger] text_of(source, c.references@[rorder[k] as int].range)) is Some
    &&& interned(s.names).len() <= nd + nr
    &&& forall|k: int| 0 <= k < nd ==> #[trigger] c.definitions@[dorder[k] as int].range.start < source.len()
    &&& forall|k: int| 0 <= k < nr ==> #[trigger] c.references@[rorder[k] as int].range.start < source.len()
    &&& names_match(s.tree, interned(s.names), source)
    &&& distinct_entries(interned(s.names))
    &&& hoists_land(s.tree, c.definitions@)
    &&& ids_match(s.tree, c.definitions@, dorder, nd)
    &&& s.def_locations@.len() == nd
    &&& defs_located(s.tree, c.definitions@, dorder, s.def_locations@)
    &&& s.ref_locations@.len() == nr
    &&& refs_located(s.tree, c.references@, rorder, s.ref_locations@)
}

/// A definition of scope `x` in the new tree either stood at the same place
/// in the old tree or is named by the new table.
pub open spec fn def_kept(
    old_list: Seq<Definition>,
    x_is_old: bool,
    k: int,
    d: Definition,
    table: Seq<Seq<char>>,
    source: Seq<u8>,
) -> bool {
    (x_is_old && k < old_list.len() && d == old_list[k]) || named(table, source, d.range, d.name)
}

/// A reference of scope `x` in the new tree either stood at the same place
/// in the old tree or is named by the new table.
pub open spec fn ref_kept(
    old_list: Seq<Reference>,
    x_is_old: bool,
    k: int,
    r: Reference,
    table: Seq<Seq<char>>,
    source: Seq<u8>,
) -> bool {
    (x_is_old && k < old_list.len() && r == old_list[k]) || named(table, source, r.range, r.name)
}

/// Names stay matched when the table only grows and every item of the new
/// tree either was in the old one at the same place or is named by the
/// grown table.
proof fn lemma_names_kept(
    t1: ScopeTree,
    t2: ScopeTree,
    table1: Seq<Seq<char>>,
    table2: Seq<Seq<char>>,
    source: Seq<u8>,
)
    requires
        names_match(t1, table1, source),
        table1.len() <= table2.len(),
        forall|i: int| 0 <= i < table1.len() ==> #[trigger] table2[i] == table1[i],
        forall|x: int, k: int|
            0 <= x < t2.scopes@.len() && 0 <= k < t2.scopes@[x].hoisted_definitions@.len() ==> def_kept(
                t1.scopes@[x].hoisted_definitions@,
                x < t1.scopes@.len(),
                k,
                #[trigger] t2.scopes@[x].hoisted_definitions@[k],
                table2,
                source,
            ),
        forall|x: int, k: int|
            0 <= x < t2.scopes@.len() && 0 <= k < t2.scopes@[x].definitions@.len() ==> def_kept(
                t1.scopes@[x].definitions@,
                x < t1.scopes@.len(),
                k,
                #[trigger] t2.scopes@[x].definitions@[k],
                table2,
                source,
            ),
        forall|x: int, k: int|
            0 <= x < t2.scopes@.len() && 0 <= k < t2.scopes@[x].references@.len() ==> ref_kept(
                t1.scopes@[x].references@,
                x < t1.scopes@.len(),
                k,
                #[trigger] t2.scopes@[x].references@[k],
                table2,
                source,
            ),
    ensures
        names_match(t2, table2, source),
{
    assert forall|x: int, k: int|
        0 <= x < t2.scopes@.len() && 0 <= k < t2.scopes@[x].hoisted_definitions@.len() implies named(
            table2,
            source,
            (#[trigger] t2.scopes@[x].hoisted_definitions@[k]).range,
            t2.scopes@[x].hoisted_definitions@[k].name,
        ) by {
        let d = t2.scopes@[x].hoisted_definitions@[k];
        if x < t1.scopes@.len() && k < t1.scopes@[x].hoisted_definitions@.len()
            && d == t1.scopes@[x].hoisted_definitions@[k] {
            assert(named(table1, source, d.range, d.name));
        }
    }
    assert forall|x: int, k: int|
        0 <= x < t2.scopes@.len() && 0 <= k < t2.scopes@[x].definitions@.len() implies named(
            table2,
            source,
            (#[trigger] t2.scopes@[x].definitions@[k]).range,
            t2.scopes@[x].definitions@[k].name,
        ) by {
        let d = t2.scopes@[x].definitions@[k];
        if x < t1.scopes@.len() && k < t1.scopes@[x].definitions@.len() && d == t1.scopes@[x].definitions@[k] {
            assert(named(table1, source, d.range, d.name));
        }
    }
    assert forall|x: int, k: int|
        0 <= x < t2.scopes@.len() && 0 <= k < t2.scopes@[x].references@.len() implies named(
            table2,
            source,
            (#[trigger] t2.scopes@[x].references@[k]).range,
            t2.scopes@[x].references@[k].name,
        ) by {
        let r = t2.scopes@[x].references@[k];
        if x < t1.scopes@.len() && k < t1.scopes@[x].references@.len() && r == t1.scopes@[x].references@[k] {
            assert(named(table1, source, r.range, r.name));
        }
    }
}

/// `e` is the stored form of definition capture `d` with id `id`.
pub open spec fn stores_def(e: Definition, d: DefCapture, id: usize) -> bool {
    e.id == id && e.range == d.range && e.span == d.span && e.kind@ == d.kind@
}

/// `e` is the stored form of reference capture `r`.
pub open spec fn stores_ref(e: Reference, r: RefCapture) -> bool {
    e.range == r.range && e.span == r.span
}

/// Definition capture `d`, drained into scope `scope` with id `id`, is
/// stored in the hoisted definitions of the hoist target of `scope` if it
/// has a hoist kind, else in `scope`'s own definitions.
pub open spec fn def_stored(t: ScopeTree, scope: int, d: DefCapture, id: usize) -> bool {
    match d.hoist {
        Some(h) => {
            let x = hoist_target(t, scope, h@);
            exists|j: int|
                0 <= j < t.scopes@[x].hoisted_definitions@.len() && #[trigger] stores_def(
                    t.scopes@[x].hoisted_definitions@[j],
                    d,
                    id,
                )
        },
        None => exists|j: int|
            0 <= j < t.scopes@[scope].definitions@.len() && #[trigger] stores_def(
                t.scopes@[scope].definitions@[j],
                d,
                id,
            ),
    }
}

/// Reference capture `r` is stored in the references of scope `scope`.
pub open spec fn ref_stored(t: ScopeTree, scope: int, r: RefCapture) -> bool {
    exists|j: int|
        0 <= j < t.scopes@[scope].references@.len() && #[trigger] stores_ref(
            t.scopes@[scope].references@[j],
            r,
        )
}

/// `t2` keeps every scope of `t1` with its parent, range and kind, and
/// every list of a scope of `t1` is a prefix of the same list in `t2`.
pub open spec fn extends(t1: ScopeTree, t2: ScopeTree) -> bool {
    &&& t1.scopes@.len() <= t2.scopes@.len()
    &&& forall|x: int|
        0 <= x < t1.scopes@.len() ==> {
            &&& (#[trigger] t2.scopes@[x]).parent == t1.scopes@[x].parent
            &&& t2.scopes@[x].range == t1.scopes@[x].range
            &&& t2.scopes@[x].kind@ == t1.scopes@[x].kind@
            &&& t1.scopes@[x].hoisted_definitions@.is_prefix_of(t2.scopes@[x].hoisted_definitions@)
            &&& t1.scopes@[x].definitions@.is_prefix_of(t2.scopes@[x].definitions@)
            &&& t1.scopes@[x].references@.is_prefix_of(t2.scopes@[x].references@)
        }
}

proof fn lemma_extends_trans(t1: ScopeTree, t2: ScopeTree, t3: ScopeTree)
    requires
        extends(t1, t2),
        extends(t2, t3),
    ensures
        extends(t1, t3),
{
    assert forall|x: int| 0 <= x < t1.scopes@.len() implies {
        &&& (#[trigger] t3.scopes@[x]).parent == t1.scopes@[x].parent
        &&& t3.scopes@[x].range == t1.scopes@[x].range
        &&& t3.scopes@[x].kind@ == t1.scopes@[x].kind@
        &&& t1.scopes@[x].hoisted_definitions@.is_prefix_of(t3.scopes@[x].hoisted_definitions@)
        &&& t1.scopes@[x].definitions@.is_prefix_of(t3.scopes@[x].definitions@)
        &&& t1.scopes@[x].references@.is_prefix_of(t3.scopes@[x].references@)
    } by {
        assert(t2.scopes@[x].parent == t1.scopes@[x].parent);
        let (a, b, c) = (t1.scopes@[x], t2.scopes@[x], t3.scopes@[x]);
        assert(a.hoisted_definitions@.is_prefix_of(b.hoisted_definitions@));
        assert(b.hoisted_definitions@.is_prefix_of(c.hoisted_definitions@));
        assert(a.hoisted_definitions@ == c.hoisted_definitions@.subrange(0, a.hoisted_definitions@.len() as int));
        assert(a.definitions@.is_prefix_of(b.definitions@));
        assert(b.definitions@.is_prefix_of(c.definitions@));
        assert(a.definitions@ == c.definitions@.subrange(0, a.definitions@.len() as int));
        assert(a.references@.is_prefix_of(b.references@));
        assert(b.references@.is_prefix_of(c.references@));
        assert(a.references@ == c.references@.subrange(0, a.references@.len() as int));
    }
}

/// Hoist targets only look at ancestors, so they survive extension.
proof fn lemma_hoist_target_stable(t1: ScopeTree, t2: ScopeTree, a: int, kind: Seq<char>)
    requires
        tree_wf(t1),
        extends(t1, t2),
        0 <= a < t1.scopes@.len(),
    ensures
        hoist_target(t2, a, kind) == hoist_target(t1, a, kind),
    decreases a,
{
    assert(t2.scopes@[a].parent == t1.scopes@[a].parent);
    if a > 0 {
        let p = t1.scopes@[a].parent->0 as int;
        assert(t2.scopes@[p].kind@ == t1.scopes@[p].kind@);
        lemma_hoist_target_stable(t1, t2, p, kind);
    }
}

proof fn lemma_def_stored_kept(t1: ScopeTree, t2: ScopeTree, scope: int, d: DefCapture, id: usize)
    requires
        tree_wf(t1),
        extends(t1, t2),
        0 <= scope < t1.scopes@.len(),
        def_stored(t1, scope, d, id),
    ensures
        def_stored(t2, scope, d, id),
{
    match d.hoist {
        Some(h) => {
            lemma_hoist_target_stable(t1, t2, scope, h@);
            lemma_hoist_target_kind(t1, scope, h@);
            let x = hoist_target(t1, scope, h@);
            let j = choose|j: int|
                0 <= j < t1.scopes@[x].hoisted_definitions@.len() && #[trigger] stores_def(
                    t1.scopes@[x].hoisted_definitions@[j],
                    d,
                    id,
                );
            assert(t2.scopes@[x].parent == t1.scopes@[x].parent);
            assert(t2.scopes@[x].hoisted_definitions@[j] == t1.scopes@[x].hoisted_definitions@[j]);
        },
        None => {
            let j = choose|j: int|
                0 <= j < t1.scopes@[scope].definitions@.len() && #[trigger] stores_def(
                    t1.scopes@[scope].definitions@[j],
                    d,
                    id,
                );
            assert(t2.scopes@[scope].parent == t1.scopes@[scope].parent);
            assert(t2.scopes@[scope].definitions@[j] == t1.scopes@[scope].definitions@[j]);
        },
    }
}

proof fn lemma_ref_stored_kept(t1: ScopeTree, t2: ScopeTree, scope: int, r: RefCapture)
    requires
        extends(t1, t2),
        0 <= scope < t1.scopes@.len(),
        ref_stored(t1, scope, r),
    ensures
        ref_stored(t2, scope, r),
{
    let j = choose|j: int|
        0 <= j < t1.scopes@[scope].references@.len() && #[trigger] stores_ref(
            t1.scopes@[scope].references@[j],
            r,
        );
    assert(t2.scopes@[scope].parent == t1.scopes@[scope].parent);
    assert(t2.scopes@[scope].references@[j] == t1.scopes@[scope].references@[j]);
}

/// Each definition at sweep position `k < place.len()` is stored, with id
/// `k + 1`, as drained into scope `place[k]`.
pub open spec fn defs_placed(t: ScopeTree, defs: Seq<DefCapture>, o: Seq<usize>, place: Seq<int>) -> bool {
    forall|k: int|
        0 <= k < place.len() ==> 0 <= #[trigger] place[k] < t.scopes@.len() && def_stored(
            t,
            place[k],
            defs[o[k] as int],
            (k + 1) as usize,
        )
}

/// Each reference at sweep position `k < place.len()` is stored in scope
/// `place[k]`.
pub open spec fn refs_placed(t: ScopeTree, refs: Seq<RefCapture>, o: Seq<usize>, place: Seq<int>) -> bool {
    forall|k: int|
        0 <= k < place.len() ==> 0 <= #[trigger] place[k] < t.scopes@.len() && ref_stored(
            t,
            place[k],
            refs[o[k] as int],
        )
}

proof fn lemma_placed_kept(
    t1: ScopeTree,
    t2: ScopeTree,
    c: Captures,
    dorder: Seq<usize>,
    rorder: Seq<usize>,
    dplace: Seq<int>,
    rplace: Seq<int>,
)
    requires
        tree_wf(t1),
        extends(t1, t2),
        defs_placed(t1, c.definitions@, dorder, dplace),
        refs_placed(t1, c.references@, rorder, rplace),
    ensures
        defs_placed(t2, c.definitions@, dorder, dplace),
        refs_placed(t2, c.references@, rorder, rplace),
{
    assert forall|k: int| 0 <= k < dplace.len() implies 0 <= #[trigger] dplace[k] < t2.scopes@.len() && def_stored(
        t2,
        dplace[k],
        c.definitions@[dorder[k] as int],
        (k + 1) as usize,
    ) by {
        lemma_def_stored_kept(t1, t2, dplace[k], c.definitions@[dorder[k] as int], (k + 1) as usize);
    }
    assert forall|k: int| 0 <= k < rplace.len() implies 0 <= #[trigger] rplace[k] < t2.scopes@.len() && ref_stored(
        t2,
        rplace[k],
        c.references@[rorder[k] as int],
    ) by {
        lemma_ref_stored_kept(t1, t2, rplace[k], c.references@[rorder[k] as int]);
    }
}

proof fn lemma_defs_placed_append(t: ScopeTree, defs: Seq<DefCapture>, o: Seq<usize>, place: Seq<int>, cur: int, n: int)
    requires
        defs_placed(t, defs, o, place),
        0 <= cur < t.scopes@.len(),
        place.len() <= n,
        forall|k: int| place.len() <= k < n ==> def_stored(t, cur, #[trigger] defs[o[k] as int], (k + 1) as usize),
    ensures
        defs_placed(t, defs, o, place + Seq::new((n - place.len()) as nat, |_i: int| cur)),
{
    let p2 = place + Seq::new((n - place.len()) as nat, |_i: int| cur);
    assert forall|k: int| 0 <= k < p2.len() implies 0 <= #[trigger] p2[k] < t.scopes@.len() && def_stored(
        t,
        p2[k],
        defs[o[k] as int],
        (k + 1) as usize,
    ) by {
        if k < place.len() {
            assert(p2[k] == place[k]);
        } else {
            assert(p2[k] == cur);
        }
    }
}

proof fn lemma_refs_placed_append(t: ScopeTree, refs: Seq<RefCapture>, o: Seq<usize>, place: Seq<int>, cur: int, n: int)
    requires
        refs_placed(t, refs, o, place),
        0 <= cur < t.scopes@.len(),
        place.len() <= n,
        forall|k: int| place.len() <= k < n ==> ref_stored(t, cur, #[trigger] refs[o[k] as int]),
    ensures
        refs_placed(t, refs, o, place + Seq::new((n - place.len()) as nat, |_i: int| cur)),
{
    let p2 = place + Seq::new((n - place.len()) as nat, |_i: int| cur);
    assert forall|k: int| 0 <= k < p2.len() implies 0 <= #[trigger] p2[k] < t.scopes@.len() && ref_stored(
        t,
        p2[k],
        refs[o[k] as int],
    ) by {
        if k < place.len() {
            assert(p2[k] == place[k]);
        } else {
            assert(p2[k] == cur);
        }
    }
}

/// `r` covers byte `p`.
pub open spec fn covers(r: ByteRange, p: usize) -> bool {
    r.start <= p && p < r.end
}

/// Any two scope captures are nested or disjoint.
pub open spec fn laminar(scopes: Seq<ScopeCapture>) -> bool {
    forall|i: int, j: int|
        0 <= i < scopes.len() && 0 <= j < scopes.len() ==> {
            let a = (#[trigger] scopes[i]).range;
            let b = (#[trigger] scopes[j]).range;
            range_contains(a, b) || range_contains(b, a) || a.end <= b.start || b.end <= a.start
        }
}

/// The last of the first `n` scopes of the arena that covers `p`, or the
/// root. The arena lists scopes in pre-order, so with nested or disjoint
/// scopes this is the deepest scope covering `p`.
pub open spec fn innermost_upto(t: ScopeTree, p: usize, n: int) -> int
    decreases n,
{
    if n <= 1 {
        0
    } else if covers(t.scopes@[n - 1].range, p) {
        n - 1
    } else {
        innermost_upto(t, p, n - 1)
    }
}

/// The innermost scope of `t` covering byte `p`, the root if none does.
pub open spec fn innermost(t: ScopeTree, p: usize) -> int {
    innermost_upto(t, p, t.scopes@.len() as int)
}

/// The range of arena scope `x >= 1`, read from the sorted captures.
pub open spec fn srange(c: Captures, so: Seq<usize>, x: int) -> ByteRange {
    c.scopes@[so[x - 1] as int].range
}

/// `innermost_upto` over the arena that the sorted captures will build.
pub open spec fn innermost_c(c: Captures, so: Seq<usize>, p: usize, n: int) -> int
    decreases n,
{
    if n <= 1 {
        0
    } else if covers(srange(c, so, n - 1), p) {
        n - 1
    } else {
        innermost_c(c, so, p, n - 1)
    }
}

proof fn lemma_innermost_c_is(c: Captures, so: Seq<usize>, p: usize, cur: int, n: int)
    requires
        0 <= cur < n,
        cur == 0 || covers(srange(c, so, cur), p),
        forall|x: int| cur < x < n ==> !covers(#[trigger] srange(c, so, x), p),
    ensures
        innermost_c(c, so, p, n) == cur,
    decreases n,
{
    if n > cur + 1 {
        lemma_innermost_c_is(c, so, p, cur, n - 1);
    }
}

/// `innermost` on a tree whose scopes are the sorted captures agrees with
/// `innermost_c` over those captures.
pub proof fn lemma_innermost_matches(t: ScopeTree, c: Captures, so: Seq<usize>, p: usize, n: int)
    requires
        n <= t.scopes@.len(),
        forall|x: int| 1 <= x < t.scopes@.len() ==> (#[trigger] t.scopes@[x]).range == srange(c, so, x),
    ensures
        innermost_upto(t, p, n) == innermost_c(c, so, p, n),
    decreases n,
{
    if n > 1 {
        assert(t.scopes@[n - 1].range == srange(c, so, n - 1));
        lemma_innermost_matches(t, c, so, p, n - 1);
    }
}

/// `a` is `x` or one of its ancestors.
pub open spec fn anc(t: ScopeTree, a: int, x: int) -> bool
    decreases x,
{
    if a == x {
        true
    } else if 0 < x < t.scopes@.len() {
        match t.scopes@[x].parent {
            Some(q) => if q < x {
                anc(t, a, q as int)
            } else {
                false
            },
            None => false,
        }
    } else {
        false
    }
}

proof fn lemma_anc_below(t: ScopeTree, a: int, x: int)
    requires
        anc(t, a, x),
    ensures
        a <= x,
    decreases x,
{
    if a != x {
        let q = t.scopes@[x].parent->0 as int;
        lemma_anc_below(t, a, q);
    }
}

proof fn lemma_anc_stable(t1: ScopeTree, t2: ScopeTree, a: int, x: int)
    requires
        t1.scopes@.len() <= t2.scopes@.len(),
        forall|y: int| 0 <= y < t1.scopes@.len() ==> (#[trigger] t2.scopes@[y]).parent == t1.scopes@[y].parent,
        0 <= x < t1.scopes@.len(),
    ensures
        anc(t2, a, x) == anc(t1, a, x),
    decreases x,
{
    assert(t2.scopes@[x].parent == t1.scopes@[x].parent);
    if a != x && x > 0 {
        if let Some(q) = t1.scopes@[x].parent {
            if q < x {
                lemma_anc_stable(t1, t2, a, q as int);
            }
        }
    }
}

/// Every pending definition and reference starts at or after `b`.
pub open spec fn pending_from(c: Captures, dorder: Seq<usize>, rorder: Seq<usize>, di: int, ri: int, b: usize) -> bool {
    &&& (di < dorder.len() ==> c.definitions@[dorder[di] as int].range.start >= b)
    &&& (ri < rorder.len() ==> c.references@[rorder[ri] as int].range.start >= b)
}

/// Pending starts only move forward.
proof fn lemma_pending_mono(
    c: Captures,
    dorder: Seq<usize>,
    rorder: Seq<usize>,
    d1: int,
    r1: int,
    d2: int,
    r2: int,
    b: usize,
)
    requires
        sorted_order(dorder, c.definitions@.len(), def_key(c.definitions@)),
        sorted_order(rorder, c.references@.len(), ref_key(c.references@)),
        0 <= d1 <= d2,
        0 <= r1 <= r2,
        pending_from(c, dorder, rorder, d1, r1, b),
    ensures
        pending_from(c, dorder, rorder, d2, r2, b),
{
    if d2 < dorder.len() && d1 < d2 {
        let (a, x) = (def_key(c.definitions@)(dorder[d1] as int), def_key(c.definitions@)(dorder[d2] as int));
        assert(a.0 < x.0 || (a.0 == x.0 && (a.1 < x.1 || (a.1 == x.1 && dorder[d1] < dorder[d2]))));
    }
    if r2 < rorder.len() && r1 < r2 {
        let (a, x) = (ref_key(c.references@)(rorder[r1] as int), ref_key(c.references@)(rorder[r2] as int));
        assert(a.0 < x.0 || (a.0 == x.0 && (a.1 < x.1 || (a.1 == x.1 && rorder[r1] < rorder[r2]))));
    }
}

/// An item starting at `p`, drained into `cur`, lies in the innermost
/// scope of the arena the captures build, when `cur` covers it, no later
/// opened scope does, and every scope still to come starts after it.
proof fn lemma_drained_innermost(
    c: Captures,
    so: Seq<usize>,
    t: ScopeTree,
    cur: int,
    p: usize,
    pend: usize,
)
    requires
        sorted_order(so, c.scopes@.len(), scope_key(c.scopes@)),
        1 <= t.scopes@.len() <= c.scopes@.len() + 1,
        forall|x: int| 1 <= x < t.scopes@.len() ==> (#[trigger] t.scopes@[x]).range == srange(c, so, x),
        tree_wf(t),
        0 <= cur < t.scopes@.len(),
        pend <= p,
        cur != 0 ==> t.scopes@[cur].range.start <= pend,
        forall|x: int|
            1 <= x < t.scopes@.len() && !anc(t, x, cur) ==> (#[trigger] t.scopes@[x]).range.end <= pend,
        cur == 0 || p < t.scopes@[cur].range.end,
        t.scopes@.len() <= c.scopes@.len() ==> p < srange(c, so, t.scopes@.len() as int).start,
    ensures
        innermost_c(c, so, p, c.scopes@.len() + 1 as int) == cur,
{
    let len = t.scopes@.len() as int;
    let m = c.scopes@.len() as int;
    let q = so.map_values(|v: usize| v as int);
    assert forall|x: int| cur < x < m + 1 implies !covers(#[trigger] srange(c, so, x), p) by {
        if x < len {
            if anc(t, x, cur) {
                lemma_anc_below(t, x, cur);
            }
            assert(t.scopes@[x].range == srange(c, so, x));
        } else {
            if x > len {
                assert(0 <= q[len - 1] < m && 0 <= q[x - 1] < m);
                let (a, b) = (scope_key(c.scopes@)(so[len - 1] as int), scope_key(c.scopes@)(so[x - 1] as int));
                assert(a.0 < b.0 || (a.0 == b.0 && (a.1 < b.1 || (a.1 == b.1 && so[len - 1] < so[x - 1]))));
            }
        }
    }
    if cur != 0 {
        assert(t.scopes@[cur].range == srange(c, so, cur));
    }
    lemma_innermost_c_is(c, so, p, cur, m + 1);
}

/// No scope strictly between `x`'s parent and `x` contains `x`: the parent
/// is the last earlier scope (in the sorted captures) whose range contains
/// `x`'s, or the root.
pub open spec fn last_container(t: ScopeTree, c: Captures, so: Seq<usize>, x: int) -> bool {
    match t.scopes@[x].parent {
        Some(p) => forall|y: int|
            p < y < x ==> !range_contains(#[trigger] srange(c, so, y), srange(c, so, x)),
        None => false,
    }
}

/// What the sweep knows about the scopes it has opened: they are the
/// sorted scope captures; every pending item starts inside the current
/// scope; every scope off the current scope's chain of ancestors ends at
/// or before the pending items; and, with nested or disjoint scopes, each
/// drained item went to the innermost scope covering its start.
pub open spec fn open_inv(
    t: ScopeTree,
    c: Captures,
    so: Seq<usize>,
    dorder: Seq<usize>,
    rorder: Seq<usize>,
    di: int,
    ri: int,
    cur: int,
    dplace: Seq<int>,
    rplace: Seq<int>,
) -> bool {
    &&& forall|x: int| 1 <= x < t.scopes@.len() ==> (#[trigger] t.scopes@[x]).range == srange(c, so, x)
    &&& forall|x: int|
        1 <= x < t.scopes@.len() ==> (#[trigger] t.scopes@[x]).kind@ == c.scopes@[so[x - 1] as int].kind@
    &&& t.scopes@.len() <= c.scopes@.len() + 1
    &&& (cur != 0 ==> pending_from(c, dorder, rorder, di, ri, t.scopes@[cur].range.start))
    &&& forall|x: int|
        1 <= x < t.scopes@.len() && !anc(t, x, cur) ==> pending_from(
            c,
            dorder,
            rorder,
            di,
            ri,
            (#[trigger] t.scopes@[x]).range.end,
        )
    &&& laminar(c.scopes@) ==> forall|x: int|
        1 <= x < t.scopes@.len() && srange(c, so, x).start < srange(c, so, x).end ==> #[trigger] last_container(
            t,
            c,
            so,
            x,
        )
    &&& laminar(c.scopes@) && t.scopes@.len() <= c.scopes@.len() ==> forall|y: int|
        1 <= y < t.scopes@.len() && !anc(t, y, cur) ==> (#[trigger] srange(c, so, y)).end <= srange(
            c,
            so,
            t.scopes@.len() as int,
        ).start
    &&& laminar(c.scopes@) ==> forall|k: int|
        0 <= k < dplace.len() ==> #[trigger] dplace[k] == innermost_c(
            c,
            so,
            c.definitions@[dorder[k] as int].range.start,
            c.scopes@.len() + 1 as int,
        )
    &&& laminar(c.scopes@) ==> forall|k: int|
        0 <= k < rplace.len() ==> #[trigger] rplace[k] == innermost_c(
            c,
            so,
            c.references@[rorder[k] as int].range.start,
            c.scopes@.len() + 1 as int,
        )
}

proof fn lemma_open_after_drain(
    t1: ScopeTree,
    t2: ScopeTree,
    c: Captures,
    so: Seq<usize>,
    dorder: Seq<usize>,
    rorder: Seq<usize>,
    d1: int,
    r1: int,
    d2: int,
    r2: int,
    cur: int,
    dplace: Seq<int>,
    rplace: Seq<int>,
)
    requires
        open_inv(t1, c, so, dorder, rorder, d1, r1, cur, dplace, rplace),
        extends(t1, t2),
        t1.scopes@.len() == t2.scopes@.len(),
        0 <= cur < t1.scopes@.len(),
        sorted_order(dorder, c.definitions@.len(), def_key(c.definitions@)),
        sorted_order(rorder, c.references@.len(), ref_key(c.references@)),
        0 <= d1 <= d2,
        0 <= r1 <= r2,
    ensures
        open_inv(t2, c, so, dorder, rorder, d2, r2, cur, dplace, rplace),
{
    assert forall|x: int| 0 <= x < t1.scopes@.len() implies (#[trigger] t2.scopes@[x]).parent == t1.scopes@[x].parent by {}
    if laminar(c.scopes@) {
        assert forall|x: int|
            1 <= x < t2.scopes@.len() && srange(c, so, x).start < srange(c, so, x).end implies #[trigger] last_container(
                t2,
                c,
                so,
                x,
            ) by {
            assert(last_container(t1, c, so, x));
        }
        if t2.scopes@.len() <= c.scopes@.len() {
            assert forall|y: int| 1 <= y < t2.scopes@.len() && !anc(t2, y, cur) implies (#[trigger] srange(c, so, y)).end
                <= srange(c, so, t2.scopes@.len() as int).start by {
                lemma_anc_stable(t1, t2, y, cur);
            }
        }
    }
    assert forall|x: int| 1 <= x < t2.scopes@.len() implies (#[trigger] t2.scopes@[x]).range == srange(c, so, x)
        && t2.scopes@[x].kind@ == c.scopes@[so[x - 1] as int].kind@ by {
        assert(t2.scopes@[x].range == t1.scopes@[x].range);
    }
    if cur != 0 {
        assert(t2.scopes@[cur].range == t1.scopes@[cur].range);
        lemma_pending_mono(c, dorder, rorder, d1, r1, d2, r2, t1.scopes@[cur].range.start);
    }
    assert forall|x: int|
        1 <= x < t2.scopes@.len() && !anc(t2, x, cur) implies pending_from(
            c,
            dorder,
            rorder,
            d2,
            r2,
            (#[trigger] t2.scopes@[x]).range.end,
        ) by {
        lemma_anc_stable(t1, t2, x, cur);
        assert(t2.scopes@[x].range == t1.scopes@[x].range);
        lemma_pending_mono(c, dorder, rorder, d1, r1, d2, r2, t1.scopes@[x].range.end);
    }
}

/// Definitions drained into `cur` in positions `d1..d2` go to the
/// innermost scope, given where they start.
proof fn lemma_defs_innermost(
    t: ScopeTree,
    c: Captures,
    so: Seq<usize>,
    dorder: Seq<usize>,
    rorder: Seq<usize>,
    d1: int,
    r1: int,
    d2: int,
    cur: int,
    dplace: Seq<int>,
    rplace: Seq<int>,
)
    requires
        open_inv(t, c, so, dorder, rorder, d1, r1, cur, dplace, rplace),
        sorted_order(so, c.scopes@.len(), scope_key(c.scopes@)),
        sorted_order(dorder, c.definitions@.len(), def_key(c.definitions@)),
        tree_wf(t),
        0 <= cur < t.scopes@.len(),
        dplace.len() == d1,
        d1 <= d2 <= dorder.len(),
        forall|k: int|
            d1 <= k < d2 ==> cur == 0 || #[trigger] c.definitions@[dorder[k] as int].range.start
                < t.scopes@[cur].range.end,
        laminar(c.scopes@) && t.scopes@.len() <= c.scopes@.len() ==> forall|k: int|
            d1 <= k < d2 ==> #[trigger] c.definitions@[dorder[k] as int].range.start < srange(
                c,
                so,
                t.scopes@.len() as int,
            ).start,
    ensures
        open_inv(t, c, so, dorder, rorder, d1, r1, cur, dplace + Seq::new((d2 - d1) as nat, |_i: int| cur), rplace),
{
    let np = dplace + Seq::new((d2 - d1) as nat, |_i: int| cur);
    if laminar(c.scopes@) {
        assert forall|k: int| 0 <= k < np.len() implies #[trigger] np[k] == innermost_c(
            c,
            so,
            c.definitions@[dorder[k] as int].range.start,
            c.scopes@.len() + 1 as int,
        ) by {
            if k < d1 {
                assert(np[k] == dplace[k]);
            } else {
                let p = c.definitions@[dorder[k] as int].range.start;
                let pend = c.definitions@[dorder[d1] as int].range.start;
                if k > d1 {
                    let (a, b) = (def_key(c.definitions@)(dorder[d1] as int), def_key(c.definitions@)(dorder[k] as int));
                    assert(a.0 < b.0 || (a.0 == b.0 && (a.1 < b.1 || (a.1 == b.1 && dorder[d1] < dorder[k]))));
                }
                assert forall|x: int|
                    1 <= x < t.scopes@.len() && !anc(t, x, cur) implies (#[trigger] t.scopes@[x]).range.end <= pend by {
                    assert(pending_from(c, dorder, rorder, d1, r1, t.scopes@[x].range.end));
                }
                lemma_drained_innermost(c, so, t, cur, p, pend);
                assert(np[k] == cur);
            }
        }
    }
}

/// References drained into `cur` in positions `r1..r2` go to the
/// innermost scope, given where they start.
proof fn lemma_refs_innermost(
    t: ScopeTree,
    c: Captures,
    so: Seq<usize>,
    dorder: Seq<usize>,
    rorder: Seq<usize>,
    d1: int,
    r1: int,
    r2: int,
    cur: int,
    dplace: Seq<int>,
    rplace: Seq<int>,
)
    requires
        open_inv(t, c, so, dorder, rorder, d1, r1, cur, dplace, rplace),
        sorted_order(so, c.scopes@.len(), scope_key(c.scopes@)),
        sorted_order(rorder, c.references@.len(), ref_key(c.references@)),
        tree_wf(t),
        0 <= cur < t.scopes@.len(),
        rplace.len() == r1,
        r1 <= r2 <= rorder.len(),
        forall|k: int|
            r1 <= k < r2 ==> cur == 0 || #[trigger] c.references@[rorder[k] as int].range.start
                < t.scopes@[cur].range.end,
        laminar(c.scopes@) && t.scopes@.len() <= c.scopes@.len() ==> forall|k: int|
            r1 <= k < r2 ==> #[trigger] c.references@[rorder[k] as int].range.start < srange(
                c,
                so,
                t.scopes@.len() as int,
            ).start,
    ensures
        open_inv(t, c, so, dorder, rorder, d1, r1, cur, dplace, rplace + Seq::new((r2 - r1) as nat, |_i: int| cur)),
{
    let np = rplace + Seq::new((r2 - r1) as nat, |_i: int| cur);
    if laminar(c.scopes@) {
        assert forall|k: int| 0 <= k < np.len() implies #[trigger] np[k] == innermost_c(
            c,
            so,
            c.references@[rorder[k] as int].range.start,
            c.scopes@.len() + 1 as int,
        ) by {
            if k < r1 {
                assert(np[k] == rplace[k]);
            } else {
                let p = c.references@[rorder[k] as int].range.start;
                let pend = c.references@[rorder[r1] as int].range.start;
                if k > r1 {
                    let (a, b) = (ref_key(c.references@)(rorder[r1] as int), ref_key(c.references@)(rorder[k] as int));
                    assert(a.0 < b.0 || (a.0 == b.0 && (a.1 < b.1 || (a.1 == b.1 && rorder[r1] < rorder[k]))));
                }
                assert forall|x: int|
                    1 <= x < t.scopes@.len() && !anc(t, x, cur) implies (#[trigger] t.scopes@[x]).range.end <= pend by {
                    assert(pending_from(c, dorder, rorder, d1, r1, t.scopes@[x].range.end));
                }
                lemma_drained_innermost(c, so, t, cur, p, pend);
                assert(np[k] == cur);
            }
        }
    }
}

/// With nested or disjoint scopes, a scope that must be closed before the
/// next one opens ends at or before the next one starts.
proof fn lemma_climb_disjoint(c: Captures, so: Seq<usize>, cur: int, len: int)
    requires
        laminar(c.scopes@),
        sorted_order(so, c.scopes@.len(), scope_key(c.scopes@)),
        1 <= cur < len <= c.scopes@.len(),
        srange(c, so, len).end > srange(c, so, cur).end,
        srange(c, so, cur).start <= srange(c, so, cur).end,
    ensures
        srange(c, so, cur).end <= srange(c, so, len).start,
{
    let q = so.map_values(|v: usize| v as int);
    assert(0 <= q[cur - 1] < c.scopes@.len() && 0 <= q[len - 1] < c.scopes@.len());
    let (a, b) = (scope_key(c.scopes@)(so[cur - 1] as int), scope_key(c.scopes@)(so[len - 1] as int));
    assert(a.0 < b.0 || (a.0 == b.0 && (a.1 < b.1 || (a.1 == b.1 && so[cur - 1] < so[len - 1]))));
    assert(c.scopes@[so[cur - 1] as int].range == srange(c, so, cur));
    assert(c.scopes@[so[len - 1] as int].range == srange(c, so, len));
}

proof fn lemma_open_climb(
    t: ScopeTree,
    c: Captures,
    so: Seq<usize>,
    dorder: Seq<usize>,
    rorder: Seq<usize>,
    di: int,
    ri: int,
    cur: int,
    p: int,
    dplace: Seq<int>,
    rplace: Seq<int>,
)
    requires
        open_inv(t, c, so, dorder, rorder, di, ri, cur, dplace, rplace),
        tree_wf(t),
        0 < cur < t.scopes@.len(),
        t.scopes@[cur].parent matches Some(q) && q as int == p,
        pending_from(c, dorder, rorder, di, ri, t.scopes@[cur].range.end),
        p != 0 ==> range_contains(t.scopes@[p].range, t.scopes@[cur].range),
        t.scopes@[cur].range.start <= t.scopes@[cur].range.end,
        laminar(c.scopes@) && t.scopes@.len() <= c.scopes@.len() ==> srange(c, so, cur).end <= srange(
            c,
            so,
            t.scopes@.len() as int,
        ).start,
    ensures
        open_inv(t, c, so, dorder, rorder, di, ri, p, dplace, rplace),
{
    if laminar(c.scopes@) && t.scopes@.len() <= c.scopes@.len() {
        assert forall|y: int| 1 <= y < t.scopes@.len() && !anc(t, y, p) implies (#[trigger] srange(c, so, y)).end
            <= srange(c, so, t.scopes@.len() as int).start by {
            if y != cur {
                assert(anc(t, y, cur) == anc(t, y, p));
            }
        }
    }
    assert forall|x: int|
        1 <= x < t.scopes@.len() && !anc(t, x, p) implies pending_from(
            c,
            dorder,
            rorder,
            di,
            ri,
            (#[trigger] t.scopes@[x]).range.end,
        ) by {
        if x != cur {
            assert(anc(t, x, cur) == anc(t, x, p));
        }
    }
}

proof fn lemma_open_push(
    t1: ScopeTree,
    t2: ScopeTree,
    c: Captures,
    so: Seq<usize>,
    dorder: Seq<usize>,
    rorder: Seq<usize>,
    di: int,
    ri: int,
    cur: int,
    dplace: Seq<int>,
    rplace: Seq<int>,
)
    requires
        open_inv(t1, c, so, dorder, rorder, di, ri, cur, dplace, rplace),
        tree_wf(t1),
        0 <= cur < t1.scopes@.len(),
        t2.scopes@.len() == t1.scopes@.len() + 1 <= c.scopes@.len() + 1,
        forall|y: int|
            0 <= y < t1.scopes@.len() ==> (#[trigger] t2.scopes@[y]).parent == t1.scopes@[y].parent
                && t2.scopes@[y].range == t1.scopes@[y].range && t2.scopes@[y].kind@ == t1.scopes@[y].kind@,
        t2.scopes@[t1.scopes@.len() as int].parent matches Some(q) && q as int == cur,
        t2.scopes@[t1.scopes@.len() as int].kind@ == c.scopes@[so[t1.scopes@.len() - 1] as int].kind@,
        t2.scopes@[t1.scopes@.len() as int].range == srange(c, so, t1.scopes@.len() as int),
        pending_from(c, dorder, rorder, di, ri, t2.scopes@[t1.scopes@.len() as int].range.start),
        sorted_order(so, c.scopes@.len(), scope_key(c.scopes@)),
        laminar(c.scopes@) && srange(c, so, t1.scopes@.len() as int).start < srange(c, so, t1.scopes@.len() as int).end
            ==> forall|y: int|
            cur < y < t1.scopes@.len() ==> !range_contains(
                #[trigger] srange(c, so, y),
                srange(c, so, t1.scopes@.len() as int),
            ),
    ensures
        open_inv(t2, c, so, dorder, rorder, di, ri, t1.scopes@.len() as int, dplace, rplace),
{
    let idx = t1.scopes@.len() as int;
    if laminar(c.scopes@) {
        assert forall|x: int|
            1 <= x < t2.scopes@.len() && srange(c, so, x).start < srange(c, so, x).end implies #[trigger] last_container(
                t2,
                c,
                so,
                x,
            ) by {
            if x < idx {
                assert(last_container(t1, c, so, x));
            }
        }
        if t2.scopes@.len() <= c.scopes@.len() {
            let q = so.map_values(|v: usize| v as int);
            assert(0 <= q[idx - 1] < c.scopes@.len() && 0 <= q[idx] < c.scopes@.len());
            let (a, b) = (scope_key(c.scopes@)(so[idx - 1] as int), scope_key(c.scopes@)(so[idx] as int));
            assert(a.0 < b.0 || (a.0 == b.0 && (a.1 < b.1 || (a.1 == b.1 && so[idx - 1] < so[idx]))));
            assert forall|y: int| 1 <= y < t2.scopes@.len() && !anc(t2, y, idx) implies (#[trigger] srange(c, so, y)).end
                <= srange(c, so, t2.scopes@.len() as int).start by {
                assert(y != idx);
                assert(anc(t2, y, idx) == anc(t2, y, cur));
                lemma_anc_stable(t1, t2, y, cur);
            }
        }
    }
    assert forall|x: int| 1 <= x < t2.scopes@.len() implies (#[trigger] t2.scopes@[x]).range == srange(c, so, x)
        && t2.scopes@[x].kind@ == c.scopes@[so[x - 1] as int].kind@ by {
        if x < idx {
            assert(t2.scopes@[x].range == t1.scopes@[x].range);
        }
    }
    assert forall|x: int|
        1 <= x < t2.scopes@.len() && !anc(t2, x, idx) implies pending_from(
            c,
            dorder,
            rorder,
            di,
            ri,
            (#[trigger] t2.scopes@[x]).range.end,
        ) by {
        if x < idx {
            assert(x != idx && 0 < idx < t2.scopes@.len());
            assert(cur < idx);
            assert(anc(t2, x, idx) == anc(t2, x, cur));
            lemma_anc_stable(t1, t2, x, cur);
            assert(t2.scopes@[x].range == t1.scopes@[x].range);
        }
    }
}

/// `e` is the stored form of the definition capture at sweep position
/// `e.id - 1`, one of the first `nd`.
pub open spec fn id_ok(e: Definition, defs: Seq<DefCapture>, o: Seq<usize>, nd: int) -> bool {
    1 <= e.id <= nd && stores_def(e, defs[o[e.id - 1] as int], e.id)
}

/// Every definition stored in the tree is the stored form of the capture
/// its id names: ids in the tree are those of the emitted occurrences.
pub open spec fn ids_match(t: ScopeTree, defs: Seq<DefCapture>, o: Seq<usize>, nd: int) -> bool {
    &&& forall|s: int, k: int|
        0 <= s < t.scopes@.len() && 0 <= k < t.scopes@[s].hoisted_definitions@.len() ==> id_ok(
            #[trigger] t.scopes@[s].hoisted_definitions@[k],
            defs,
            o,
            nd,
        )
    &&& forall|s: int, k: int|
        0 <= s < t.scopes@.len() && 0 <= k < t.scopes@[s].definitions@.len() ==> id_ok(
            #[trigger] t.scopes@[s].definitions@[k],
            defs,
            o,
            nd,
        )
}

/// A definition of scope `x` in the new tree either stood at the same place
/// in the old tree or satisfies `id_ok` for the new count.
pub open spec fn id_kept(
    old_list: Seq<Definition>,
    x_is_old: bool,
    k: int,
    d: Definition,
    defs: Seq<DefCapture>,
    o: Seq<usize>,
    nd: int,
) -> bool {
    (x_is_old && k < old_list.len() && d == old_list[k]) || id_ok(d, defs, o, nd)
}

proof fn lemma_ids_kept(t1: ScopeTree, t2: ScopeTree, defs: Seq<DefCapture>, o: Seq<usize>, n1: int, n2: int)
    requires
        ids_match(t1, defs, o, n1),
        n1 <= n2,
        forall|x: int, k: int|
            0 <= x < t2.scopes@.len() && 0 <= k < t2.scopes@[x].hoisted_definitions@.len() ==> id_kept(
                t1.scopes@[x].hoisted_definitions@,
                x < t1.scopes@.len(),
                k,
                #[trigger] t2.scopes@[x].hoisted_definitions@[k],
                defs,
                o,
                n2,
            ),
        forall|x: int, k: int|
            0 <= x < t2.scopes@.len() && 0 <= k < t2.scopes@[x].definitions@.len() ==> id_kept(
                t1.scopes@[x].definitions@,
                x < t1.scopes@.len(),
                k,
                #[trigger] t2.scopes@[x].definitions@[k],
                defs,
                o,
                n2,
            ),
    ensures
        ids_match(t2, defs, o, n2),
{
    assert forall|x: int, k: int|
        0 <= x < t2.scopes@.len() && 0 <= k < t2.scopes@[x].hoisted_definitions@.len() implies id_ok(
            #[trigger] t2.scopes@[x].hoisted_definitions@[k],
            defs,
            o,
            n2,
        ) by {
        let d = t2.scopes@[x].hoisted_definitions@[k];
        if x < t1.scopes@.len() && k < t1.scopes@[x].hoisted_definitions@.len()
            && d == t1.scopes@[x].hoisted_definitions@[k] {
            assert(id_ok(d, defs, o, n1));
        }
    }
    assert forall|x: int, k: int|
        0 <= x < t2.scopes@.len() && 0 <= k < t2.scopes@[x].definitions@.len() implies id_ok(
            #[trigger] t2.scopes@[x].definitions@[k],
            defs,
            o,
            n2,
        ) by {
        let d = t2.scopes@[x].definitions@[k];
        if x < t1.scopes@.len() && k < t1.scopes@[x].definitions@.len() && d == t1.scopes@[x].definitions@[k] {
            assert(id_ok(d, defs, o, n1));
        }
    }
}

/// The list of scope `s` that `hoisted` selects.
pub open spec fn def_list(t: ScopeTree, s: int, hoisted: bool) -> Seq<Definition> {
    if hoisted {
        t.scopes@[s].hoisted_definitions@
    } else {
        t.scopes@[s].definitions@
    }
}

/// Location `l` (scope, hoisted list or not, index) holds the definition
/// with id `k + 1`, and the list is the hoisted one exactly when the
/// capture at sweep position `k` has a hoist kind.
pub open spec fn def_at(t: ScopeTree, l: (int, bool, int), defs: Seq<DefCapture>, o: Seq<usize>, k: int) -> bool {
    &&& 0 <= l.0 < t.scopes@.len()
    &&& 0 <= l.2 < def_list(t, l.0, l.1).len()
    &&& def_list(t, l.0, l.1)[l.2].id == k + 1
    &&& (l.1 <==> defs[o[k] as int].hoist is Some)
}

/// `e`, found at location (s, h, j), is where its id says it is.
pub open spec fn located(e: Definition, loc: Seq<(int, bool, int)>, s: int, h: bool, j: int) -> bool {
    1 <= e.id <= loc.len() && loc[e.id - 1] == (s, h, j)
}

/// The definition with id `k + 1` sits at `loc[k]`, every stored definition
/// sits where its id says, and within one list ids increase. So each id is
/// stored exactly once, and hoisted lists hold exactly the definitions
/// whose capture has a hoist kind.
pub open spec fn defs_located(t: ScopeTree, defs: Seq<DefCapture>, o: Seq<usize>, loc: Seq<(int, bool, int)>) -> bool {
    &&& forall|k: int| 0 <= k < loc.len() ==> def_at(t, #[trigger] loc[k], defs, o, k)
    &&& forall|k1: int, k2: int|
        0 <= k1 < k2 < loc.len() && (#[trigger] loc[k1]).0 == (#[trigger] loc[k2]).0 && loc[k1].1 == loc[k2].1
            ==> loc[k1].2 < loc[k2].2
    &&& forall|x: int, j: int|
        0 <= x < t.scopes@.len() && 0 <= j < t.scopes@[x].hoisted_definitions@.len() ==> located(
            #[trigger] t.scopes@[x].hoisted_definitions@[j],
            loc,
            x,
            true,
            j,
        )
    &&& forall|x: int, j: int|
        0 <= x < t.scopes@.len() && 0 <= j < t.scopes@[x].definitions@.len() ==> located(
            #[trigger] t.scopes@[x].definitions@[j],
            loc,
            x,
            false,
            j,
        )
}

/// The reference at sweep position `k` is stored at `loc[k]` (scope,
/// index), each stored reference is one of them, and within one list sweep
/// positions increase. So each stored reference is stored exactly once.
pub open spec fn refs_located(t: ScopeTree, refs: Seq<RefCapture>, o: Seq<usize>, loc: Seq<(int, int)>) -> bool {
    &&& forall|k: int|
        0 <= k < loc.len() ==> {
            let l = #[trigger] loc[k];
            &&& 0 <= l.0 < t.scopes@.len()
            &&& 0 <= l.1 < t.scopes@[l.0].references@.len()
            &&& stores_ref(t.scopes@[l.0].references@[l.1], refs[o[k] as int])
        }
    &&& forall|k1: int, k2: int|
        0 <= k1 < k2 < loc.len() && (#[trigger] loc[k1]).0 == (#[trigger] loc[k2]).0 ==> loc[k1].1 < loc[k2].1
    &&& forall|x: int, j: int|
        0 <= x < t.scopes@.len() && 0 <= j < t.scopes@[x].references@.len() ==> #[trigger] ref_found(loc, x, j)
}

/// Some sweep position has location (x, j).
pub open spec fn ref_found(loc: Seq<(int, int)>, x: int, j: int) -> bool {
    exists|k: int| 0 <= k < loc.len() && #[trigger] loc[k] == (x, j)
}

/// Definition locations survive a change that keeps every definition list
/// of the old scopes and adds only scopes with empty lists.
proof fn lemma_defs_located_kept(t1: ScopeTree, t2: ScopeTree, defs: Seq<DefCapture>, o: Seq<usize>, loc: Seq<(int, bool, int)>)
    requires
        defs_located(t1, defs, o, loc),
        t1.scopes@.len() <= t2.scopes@.len(),
        forall|x: int|
            0 <= x < t1.scopes@.len() ==> (#[trigger] t2.scopes@[x]).hoisted_definitions@
                == t1.scopes@[x].hoisted_definitions@ && t2.scopes@[x].definitions@ == t1.scopes@[x].definitions@,
        forall|x: int|
            t1.scopes@.len() <= x < t2.scopes@.len() ==> (#[trigger] t2.scopes@[x]).hoisted_definitions@.len() == 0
                && t2.scopes@[x].definitions@.len() == 0,
    ensures
        defs_located(t2, defs, o, loc),
{
    assert forall|k: int| 0 <= k < loc.len() implies def_at(t2, #[trigger] loc[k], defs, o, k) by {
        assert(def_at(t1, loc[k], defs, o, k));
        assert(t2.scopes@[loc[k].0] == t2.scopes@[loc[k].0]);
        assert(def_list(t2, loc[k].0, loc[k].1) == def_list(t1, loc[k].0, loc[k].1));
    }
    assert forall|x: int, j: int|
        0 <= x < t2.scopes@.len() && 0 <= j < t2.scopes@[x].hoisted_definitions@.len() implies located(
            #[trigger] t2.scopes@[x].hoisted_definitions@[j],
            loc,
            x,
            true,
            j,
        ) by {
        assert(t2.scopes@[x].hoisted_definitions@ == t1.scopes@[x].hoisted_definitions@);
    }
    assert forall|x: int, j: int|
        0 <= x < t2.scopes@.len() && 0 <= j < t2.scopes@[x].definitions@.len() implies located(
            #[trigger] t2.scopes@[x].definitions@[j],
            loc,
            x,
            false,
            j,
        ) by {
        assert(t2.scopes@[x].definitions@ == t1.scopes@[x].definitions@);
    }
}

/// Pushing the definition with the next id onto one list records its
/// location.
proof fn lemma_defs_located_push(
    t1: ScopeTree,
    t2: ScopeTree,
    defs: Seq<DefCapture>,
    o: Seq<usize>,
    loc: Seq<(int, bool, int)>,
    target: int,
    h: bool,
    e: Definition,
)
    requires
        defs_located(t1, defs, o, loc),
        0 <= target < t1.scopes@.len() == t2.scopes@.len(),
        e.id == loc.len() + 1,
        h <==> defs[o[loc.len() as int] as int].hoist is Some,
        forall|x: int|
            0 <= x < t1.scopes@.len() && x != target ==> (#[trigger] t2.scopes@[x]).hoisted_definitions@
                == t1.scopes@[x].hoisted_definitions@ && t2.scopes@[x].definitions@ == t1.scopes@[x].definitions@,
        def_list(t2, target, h) == def_list(t1, target, h).push(e),
        def_list(t2, target, !h) == def_list(t1, target, !h),
    ensures
        defs_located(t2, defs, o, loc.push((target, h, def_list(t1, target, h).len() as int))),
{
    let n0 = def_list(t1, target, h).len() as int;
    let nl = loc.push((target, h, n0));
    assert forall|x: int, b: bool| 0 <= x < t1.scopes@.len() && !(x == target && b == h) implies
        #[trigger] def_list(t2, x, b) == def_list(t1, x, b) by {
    }
    assert forall|k: int| 0 <= k < nl.len() implies def_at(t2, #[trigger] nl[k], defs, o, k) by {
        if k < loc.len() {
            assert(nl[k] == loc[k]);
            assert(def_at(t1, loc[k], defs, o, k));
            if loc[k].0 == target && loc[k].1 == h {
                assert(def_list(t2, target, h)[loc[k].2] == def_list(t1, target, h)[loc[k].2]);
            } else {
                assert(def_list(t2, loc[k].0, loc[k].1) == def_list(t1, loc[k].0, loc[k].1));
            }
        } else {
            assert(def_list(t2, target, h)[n0] == e);
        }
    }
    assert forall|k1: int, k2: int|
        0 <= k1 < k2 < nl.len() && (#[trigger] nl[k1]).0 == (#[trigger] nl[k2]).0 && nl[k1].1 == nl[k2].1
            implies nl[k1].2 < nl[k2].2 by {
        if k2 == loc.len() {
            assert(nl[k1] == loc[k1]);
            assert(def_at(t1, loc[k1], defs, o, k1));
        } else {
            assert(nl[k1] == loc[k1] && nl[k2] == loc[k2]);
        }
    }
    assert forall|x: int, j: int|
        0 <= x < t2.scopes@.len() && 0 <= j < t2.scopes@[x].hoisted_definitions@.len() implies located(
            #[trigger] t2.scopes@[x].hoisted_definitions@[j],
            nl,
            x,
            true,
            j,
        ) by {
        if x == target && h && j == n0 {
            assert(def_list(t2, target, true)[n0] == e);
        } else {
            assert(def_list(t2, x, true)[j] == def_list(t1, x, true)[j]);
            assert(located(t1.scopes@[x].hoisted_definitions@[j], loc, x, true, j));
        }
    }
    assert forall|x: int, j: int|
        0 <= x < t2.scopes@.len() && 0 <= j < t2.scopes@[x].definitions@.len() implies located(
            #[trigger] t2.scopes@[x].definitions@[j],
            nl,
            x,
            false,
            j,
        ) by {
        if x == target && !h && j == n0 {
            assert(def_list(t2, target, false)[n0] == e);
        } else {
            assert(def_list(t2, x, false)[j] == def_list(t1, x, false)[j]);
            assert(located(t1.scopes@[x].definitions@[j], loc, x, false, j));
        }
    }
}

/// Reference locations survive a change that keeps every reference list
/// of the old scopes and adds only scopes with empty lists.
proof fn lemma_refs_located_kept(t1: ScopeTree, t2: ScopeTree, refs: Seq<RefCapture>, o: Seq<usize>, loc: Seq<(int, int)>)
    requires
        refs_located(t1, refs, o, loc),
        t1.scopes@.len() <= t2.scopes@.len(),
        forall|x: int| 0 <= x < t1.scopes@.len() ==> (#[trigger] t2.scopes@[x]).references@ == t1.scopes@[x].references@,
        forall|x: int| t1.scopes@.len() <= x < t2.scopes@.len() ==> (#[trigger] t2.scopes@[x]).references@.len() == 0,
    ensures
        refs_located(t2, refs, o, loc),
{
    assert forall|k: int| 0 <= k < loc.len() implies {
        let l = #[trigger] loc[k];
        &&& 0 <= l.0 < t2.scopes@.len()
        &&& 0 <= l.1 < t2.scopes@[l.0].references@.len()
        &&& stores_ref(t2.scopes@[l.0].references@[l.1], refs[o[k] as int])
    } by {
        assert(t2.scopes@[loc[k].0].references@ == t1.scopes@[loc[k].0].references@);
    }
    assert forall|x: int, j: int|
        0 <= x < t2.scopes@.len() && 0 <= j < t2.scopes@[x].references@.len() implies #[trigger] ref_found(loc, x, j) by {
        assert(t2.scopes@[x].references@ == t1.scopes@[x].references@);
        assert(t1.scopes@[x].references@[j] == t1.scopes@[x].references@[j]);
    }
}

/// Pushing the reference at the next sweep position records its location.
proof fn lemma_refs_located_push(
    t1: ScopeTree,
    t2: ScopeTree,
    refs: Seq<RefCapture>,
    o: Seq<usize>,
    loc: Seq<(int, int)>,
    target: int,
    e: Reference,
)
    requires
        refs_located(t1, refs, o, loc),
        0 <= target < t1.scopes@.len() == t2.scopes@.len(),
        stores_ref(e, refs[o[loc.len() as int] as int]),
        forall|x: int|
            0 <= x < t1.scopes@.len() && x != target ==> (#[trigger] t2.scopes@[x]).references@
                == t1.scopes@[x].references@,
        t2.scopes@[target].references@ == t1.scopes@[target].references@.push(e),
    ensures
        refs_located(t2, refs, o, loc.push((target, t1.scopes@[target].references@.len() as int))),
{
    let n0 = t1.scopes@[target].references@.len() as int;
    let nl = loc.push((target, n0));
    assert forall|k: int| 0 <= k < nl.len() implies {
        let l = #[trigger] nl[k];
        &&& 0 <= l.0 < t2.scopes@.len()
        &&& 0 <= l.1 < t2.scopes@[l.0].references@.len()
        &&& stores_ref(t2.scopes@[l.0].references@[l.1], refs[o[k] as int])
    } by {
        if k < loc.len() {
            assert(nl[k] == loc[k]);
            let l = loc[k];
            if l.0 == target {
                assert(t2.scopes@[target].references@[l.1] == t1.scopes@[target].references@[l.1]);
            } else {
                assert(t2.scopes@[l.0].references@ == t1.scopes@[l.0].references@);
            }
        }
    }
    assert forall|k1: int, k2: int|
        0 <= k1 < k2 < nl.len() && (#[trigger] nl[k1]).0 == (#[trigger] nl[k2]).0 implies nl[k1].1 < nl[k2].1 by {
        assert(nl[k1] == loc[k1]);
        if k2 < loc.len() {
            assert(nl[k2] == loc[k2]);
        }
    }
    assert forall|x: int, j: int|
        0 <= x < t2.scopes@.len() && 0 <= j < t2.scopes@[x].references@.len() implies #[trigger] ref_found(nl, x, j) by {
        if x == target && j == n0 {
            assert(nl[loc.len() as int] == (x, j));
        } else {
            assert(ref_found(loc, x, j));
            let k = choose|k: int| 0 <= k < loc.len() && #[trigger] loc[k] == (x, j);
            assert(nl[k] == (x, j));
        }
    }
}

/// Every scope's `definitions` and `references` are sorted by start.
pub open spec fn lists_sorted(t: ScopeTree) -> bool {
    &&& forall|x: int, j1: int, j2: int|
        0 <= x < t.scopes@.len() && 0 <= j1 < j2 < t.scopes@[x].definitions@.len() ==> (
        #[trigger] t.scopes@[x].definitions@[j1]).range.start <= (
        #[trigger] t.scopes@[x].definitions@[j2]).range.start
    &&& forall|x: int, j1: int, j2: int|
        0 <= x < t.scopes@.len() && 0 <= j1 < j2 < t.scopes@[x].references@.len() ==> (
        #[trigger] t.scopes@[x].references@[j1]).range.start <= (
        #[trigger] t.scopes@[x].references@[j2]).range.start
}

proof fn lemma_lists_sorted(
    t: ScopeTree,
    c: Captures,
    o: Seq<usize>,
    ro: Seq<usize>,
    dl: Seq<(int, bool, int)>,
    rl: Seq<(int, int)>,
    n: int,
)
    requires
        sorted_order(o, c.definitions@.len(), def_key(c.definitions@)),
        sorted_order(ro, c.references@.len(), ref_key(c.references@)),
        ids_match(t, c.definitions@, o, n),
        defs_located(t, c.definitions@, o, dl),
        dl.len() == n,
        n <= c.definitions@.len(),
        refs_located(t, c.references@, ro, rl),
        rl.len() <= c.references@.len(),
    ensures
        lists_sorted(t),
{
    assert forall|x: int, j1: int, j2: int|
        0 <= x < t.scopes@.len() && 0 <= j1 < j2 < t.scopes@[x].definitions@.len() implies (
        #[trigger] t.scopes@[x].definitions@[j1]).range.start <= (
        #[trigger] t.scopes@[x].definitions@[j2]).range.start by {
        let (e1, e2) = (t.scopes@[x].definitions@[j1], t.scopes@[x].definitions@[j2]);
        assert(located(e1, dl, x, false, j1));
        assert(located(e2, dl, x, false, j2));
        let (k1, k2) = (e1.id - 1, e2.id - 1);
        assert(dl[k1] == (x, false, j1) && dl[k2] == (x, false, j2));
        if k1 > k2 {
            assert(dl[k2].2 < dl[k1].2);
        }
        assert(k1 < k2);
        assert(id_ok(e1, c.definitions@, o, n) && id_ok(e2, c.definitions@, o, n));
        let q = o.map_values(|v: usize| v as int);
        assert(0 <= q[k1] < c.definitions@.len() && 0 <= q[k2] < c.definitions@.len());
        let (a, b) = (def_key(c.definitions@)(o[k1] as int), def_key(c.definitions@)(o[k2] as int));
        assert(a.0 < b.0 || (a.0 == b.0 && (a.1 < b.1 || (a.1 == b.1 && o[k1] < o[k2]))));
    }
    assert forall|x: int, j1: int, j2: int|
        0 <= x < t.scopes@.len() && 0 <= j1 < j2 < t.scopes@[x].references@.len() implies (
        #[trigger] t.scopes@[x].references@[j1]).range.start <= (
        #[trigger] t.scopes@[x].references@[j2]).range.start by {
        assert(ref_found(rl, x, j1));
        assert(ref_found(rl, x, j2));
        let k1 = choose|k: int| 0 <= k < rl.len() && #[trigger] rl[k] == (x, j1);
        let k2 = choose|k: int| 0 <= k < rl.len() && #[trigger] rl[k] == (x, j2);
        if k1 > k2 {
            assert(rl[k2].1 < rl[k1].1);
        }
        assert(k1 < k2);
        let q = ro.map_values(|v: usize| v as int);
        assert(0 <= q[k1] < c.references@.len() && 0 <= q[k2] < c.references@.len());
        let (a, b) = (ref_key(c.references@)(ro[k1] as int), ref_key(c.references@)(ro[k2] as int));
        assert(a.0 < b.0 || (a.0 == b.0 && (a.1 < b.1 || (a.1 == b.1 && ro[k1] < ro[k2]))));
    }
}

/// Interning keeps what the table held and its entries distinct.
proof fn lemma_table_grows(table0: Seq<Seq<char>>, table1: Seq<Seq<char>>, s: Seq<char>)
    requires
        distinct_entries(table0),
        table0.contains(s) ==> table1 == table0,
        !table0.contains(s) ==> table1 == table0.push(s),
    ensures
        distinct_entries(table1),
        table0.len() <= table1.len(),
        forall|i: int| 0 <= i < table0.len() ==> #[trigger] table1[i] == table0[i],
{
    if !table0.contains(s) {
        assert forall|i: int, j: int| 0 <= i < j < table1.len() implies #[trigger] table1[i] != #[trigger] table1[j] by {
            if j == table0.len() {
                assert(table1[i] == table0[i]);
                assert(table1[j] == s);
            } else {
                assert(table1[i] == table0[i]);
                assert(table1[j] == table0[j]);
            }
        }
    }
}

impl LocalResolver {
    /// A resolver with an empty arena and a fresh name table.
    pub fn new() -> (r: LocalResolver)
        ensures
            fresh_resolver(r),
    {
        LocalResolver {
            tree: ScopeTree { scopes: Vec::new() },
            names: NameTable::new(),
            definition_id_supply: 0,
            definition_start_bytes: Vec::new(),
            occurrences: Vec::new(),
            def_locations: Ghost(Seq::empty()),
            ref_locations: Ghost(Seq::empty()),
        }
    }

    /// The scope that a definition drained into `from` and hoisted to
    /// `kind` is attached to.
    pub fn hoist_scope(&self, from: usize, kind: &String) -> (r: usize)
        requires
            tree_wf(self.tree),
            from < self.tree.scopes@.len(),
        ensures
            r == hoist_target(self.tree, from as int, kind@),
            r < self.tree.scopes@.len(),
    {
        let mut cur = from;
        loop
            invariant
                tree_wf(self.tree),
                cur < self.tree.scopes@.len(),
                hoist_target(self.tree, cur as int, kind@) == hoist_target(
                    self.tree,
                    from as int,
                    kind@,
                ),
            decreases cur,
        {
            match self.tree.scopes[cur].parent {
                None => {
                    return cur;
                },
                Some(p) => {
                    if self.tree.scopes[p].kind == *kind {
                        return p;
                    }
                    cur = p;
                },
            }
        }
    }

    /// Drains into `scope` the pending definitions, in sweep order, whose
    /// start byte lies below `limit`.
    #[verifier::spinoff_prover]
    fn add_defs_while(
        &mut self,
        source: &[u8],
        c: &Captures,
        dorder: &Vec<usize>,
        rorder: &Vec<usize>,
        scope: usize,
        di: &mut usize,
        ri: usize,
        limit: usize,
    ) -> (r: Result<(), LocalsError>)
        requires
            sweep_inv(*old(self), source@, *c, dorder@, rorder@, *old(di) as int, ri as int),
            scope < old(self).tree.scopes@.len(),
            limit <= source@.len(),
        ensures
            same_shape(final(self).tree, old(self).tree),
            extends(old(self).tree, final(self).tree),
            r is Ok ==> *old(di) <= *final(di),
            r is Ok ==> forall|k: int|
                *old(di) <= k < *final(di) ==> c.definitions@[dorder@[k] as int].range.start < limit
                    && def_stored(
                    final(self).tree,
                    scope as int,
                    #[trigger] c.definitions@[dorder@[k] as int],
                    (k + 1) as usize,
                ),
            r is Ok && *final(di) < dorder@.len() ==> c.definitions@[dorder@[*final(di) as int] as int].range.start >= limit,
            r is Err ==> r matches Err(LocalsError::InvalidUtf8 { .. }),
            r matches Err(LocalsError::InvalidUtf8 { start, end }) ==> exists|k: int|
                *old(di) <= k < dorder@.len() && dorder@[k] < c.definitions@.len()
                    && c.definitions@[dorder@[k] as int].range.start < limit
                    && c.definitions@[dorder@[k] as int].range == (ByteRange { start, end }) && (
                #[trigger] text_of(source@, c.definitions@[dorder@[k] as int].range)) is None,
            r is Ok ==> sweep_inv(
                *final(self),
                source@,
                *c,
                dorder@,
                rorder@,
                *final(di) as int,
                ri as int,
            ),
    {
        let mut i: usize = *di;
        let ghost d0 = *di;
        let ghost t0 = self.tree;
        while i < dorder.len()
            invariant
                sweep_inv(*self, source@, *c, dorder@, rorder@, i as int, ri as int),
                scope < self.tree.scopes@.len(),
                same_shape(self.tree, old(self).tree),
                t0 == old(self).tree,
                d0 == *old(di),
                limit <= source@.len(),
                tree_wf(t0),
                extends(t0, self.tree),
                d0 <= i,
                forall|k: int|
                    d0 <= k < i ==> c.definitions@[dorder@[k] as int].range.start < limit && def_stored(
                        self.tree,
                        scope as int,
                        #[trigger] c.definitions@[dorder@[k] as int],
                        (k + 1) as usize,
                    ),
            ensures
                extends(t0, self.tree),
                d0 <= i,
                forall|k: int|
                    d0 <= k < i ==> c.definitions@[dorder@[k] as int].range.start < limit && def_stored(
                        self.tree,
                        scope as int,
                        #[trigger] c.definitions@[dorder@[k] as int],
                        (k + 1) as usize,
                    ),
                i < dorder@.len() ==> c.definitions@[dorder@[i as int] as int].range.start >= limit,
                sweep_inv(*self, source@, *c, dorder@, rorder@, i as int, ri as int),
                same_shape(self.tree, old(self).tree),
            decreases dorder@.len() - i,
        {
            let j = dorder[i];
            proof {
                let q = dorder@.map_values(|x: usize| x as int);
                assert(0 <= q[i as int] < c.definitions@.len());
            }
            let d = &c.definitions[j];
            if d.range.start >= limit {
                break;
            }
            proof {
                assert(in_bounds(c.definitions@[j as int].range, source@.len()));
            }
            let text = match source_text(source, d.range.start, d.range.end) {
                Some(t) => t,
                None => {
                    assert(text_of(source@, c.definitions@[j as int].range) is None);
                    assert(c.definitions@[dorder@[i as int] as int].range.start < limit);
                    assert(text_of(source@, c.definitions@[dorder@[i as int] as int].range) is None);
                    assert(d0 <= i < dorder@.len());
                    return Err(LocalsError::InvalidUtf8 { start: d.range.start, end: d.range.end });
                },
            };
            let ghost table0 = interned(self.names);
            let name = self.names.intern(text.as_str());
            let ghost table1 = interned(self.names);
            proof {
                lemma_table_grows(table0, table1, text@);
            }
            let id = i + 1;
            self.definition_id_supply = id;
            self.occurrences.push(Occurrence { range: d.range, span: d.span, id, is_definition: true });
            self.definition_start_bytes.push(d.range.start);
            let definition = Definition {
                kind: d.kind.clone(),
                range: d.range,
                span: d.span,
                id,
                name,
            };
            let ghost before = self.tree;
            match &d.hoist {
                Some(h) => {
                    let target = self.hoist_scope(scope, h);
                    proof {
                        lemma_hoist_target_kind(self.tree, scope as int, h@);
                    }
                    let ghost e = definition;
                    let ghost n0 = before.scopes@[target as int].hoisted_definitions@.len() as int;
                    self.tree.scopes[target].hoisted_definitions.push(definition);
                    proof {
                        assert forall|x: int| 0 <= x < before.scopes@.len() && x != target implies (
                        #[trigger] self.tree.scopes@[x]).hoisted_definitions@ == before.scopes@[x].hoisted_definitions@
                            && self.tree.scopes@[x].definitions@ == before.scopes@[x].definitions@ by {
                            assert(self.tree.scopes@[x] == before.scopes@[x]);
                        }
                        assert forall|x: int| 0 <= x < before.scopes@.len() implies (
                        #[trigger] self.tree.scopes@[x]).references@ == before.scopes@[x].references@ by {
                            if x != target {
                                assert(self.tree.scopes@[x] == before.scopes@[x]);
                            }
                        }
                        lemma_defs_located_push(before, self.tree, c.definitions@, dorder@, self.def_locations@, target as int, true, e);
                        lemma_refs_located_kept(before, self.tree, c.references@, rorder@, self.ref_locations@);
                    }
                    self.def_locations = Ghost(self.def_locations@.push((target as int, true, n0)));
                    assert(self.tree.scopes@[target as int].parent == before.scopes@[target as int].parent);
                    assert(self.tree.scopes@[target as int].range == before.scopes@[target as int].range);
                    assert(self.tree.scopes@[target as int].kind@ == before.scopes@[target as int].kind@);
                    assert(self.tree.scopes@[target as int].children@ == before.scopes@[target as int].children@);
                    proof {
                        assert forall|x: int| 0 <= x < before.scopes@.len() && x != target implies (
                        #[trigger] self.tree.scopes@[x]).hoisted_definitions@ == before.scopes@[x].hoisted_definitions@ by {
                            assert(self.tree.scopes@[x] == before.scopes@[x]);
                        }
                        assert forall|x: int| 0 <= x < before.scopes@.len() implies (
                        #[trigger] self.tree.scopes@[x]).kind@ == before.scopes@[x].kind@ by {
                            if x != target {
                                assert(self.tree.scopes@[x] == before.scopes@[x]);
                            }
                        }
                        lemma_hoists_push(before, self.tree, c.definitions@, target as int, j as int);
                    }
                    proof {
                        lemma_names_kept(before, self.tree, table0, table1, source@);
                        lemma_ids_kept(before, self.tree, c.definitions@, dorder@, i as int, i + 1);
                    }
                },
                None => {
                    let ghost e = definition;
                    let ghost n0 = before.scopes@[scope as int].definitions@.len() as int;
                    self.tree.scopes[scope].definitions.push(definition);
                    proof {
                        assert forall|x: int| 0 <= x < before.scopes@.len() && x != scope implies (
                        #[trigger] self.tree.scopes@[x]).hoisted_definitions@ == before.scopes@[x].hoisted_definitions@
                            && self.tree.scopes@[x].definitions@ == before.scopes@[x].definitions@ by {
                            assert(self.tree.scopes@[x] == before.scopes@[x]);
                        }
                        assert forall|x: int| 0 <= x < before.scopes@.len() implies (
                        #[trigger] self.tree.scopes@[x]).references@ == before.scopes@[x].references@ by {
                            if x != scope {
                                assert(self.tree.scopes@[x] == before.scopes@[x]);
                            }
                        }
                        lemma_defs_located_push(before, self.tree, c.definitions@, dorder@, self.def_locations@, scope as int, false, e);
                        lemma_refs_located_kept(before, self.tree, c.references@, rorder@, self.ref_locations@);
                    }
                    self.def_locations = Ghost(self.def_locations@.push((scope as int, false, n0)));
                    assert(self.tree.scopes@[scope as int].parent == before.scopes@[scope as int].parent);
                    assert(self.tree.scopes@[scope as int].range == before.scopes@[scope as int].range);
                    assert(self.tree.scopes@[scope as int].kind@ == before.scopes@[scope as int].kind@);
                    assert(self.tree.scopes@[scope as int].children@ == before.scopes@[scope as int].children@);
                    proof {
                        assert forall|x: int| 0 <= x < before.scopes@.len() implies (
                        #[trigger] self.tree.scopes@[x]).kind@ == before.scopes@[x].kind@
                            && self.tree.scopes@[x].hoisted_definitions@ == before.scopes@[x].hoisted_definitions@ by {
                            if x != scope {
                                assert(self.tree.scopes@[x] == before.scopes@[x]);
                            }
                        }
                        lemma_hoists_kept(before, self.tree, c.definitions@);
                        lemma_names_kept(before, self.tree, table0, table1, source@);
                        lemma_ids_kept(before, self.tree, c.definitions@, dorder@, i as int, i + 1);
                    }
                },
            }
            proof {
                assert forall|x: int| 0 < x < self.tree.scopes@.len() implies ((#[trigger] self.tree.scopes@[x]).parent matches Some(p) && p < x) by {
                    assert(self.tree.scopes@[x].parent == before.scopes@[x].parent);
                }
                let t1 = self.tree;
                assert forall|x: int| 0 <= x < before.scopes@.len() implies {
                    &&& (#[trigger] t1.scopes@[x]).parent == before.scopes@[x].parent
                    &&& t1.scopes@[x].range == before.scopes@[x].range
                    &&& t1.scopes@[x].kind@ == before.scopes@[x].kind@
                    &&& before.scopes@[x].hoisted_definitions@.is_prefix_of(t1.scopes@[x].hoisted_definitions@)
                    &&& before.scopes@[x].definitions@.is_prefix_of(t1.scopes@[x].definitions@)
                    &&& before.scopes@[x].references@.is_prefix_of(t1.scopes@[x].references@)
                } by {
                    let (u, v) = (before.scopes@[x], t1.scopes@[x]);
                    if v == u {
                    } else {
                        assert(u.hoisted_definitions@ == v.hoisted_definitions@.subrange(0, u.hoisted_definitions@.len() as int));
                        assert(u.definitions@ == v.definitions@.subrange(0, u.definitions@.len() as int));
                    }
                }
                assert(extends(before, t1));
                lemma_extends_trans(t0, before, t1);
                assert forall|k: int|
                    d0 <= k < i + 1 implies c.definitions@[dorder@[k] as int].range.start < limit && def_stored(
                        t1,
                        scope as int,
                        #[trigger] c.definitions@[dorder@[k] as int],
                        (k + 1) as usize,
                    ) by {
                    if k < i {
                        lemma_def_stored_kept(before, t1, scope as int, c.definitions@[dorder@[k] as int], (k + 1) as usize);
                    } else {
                        match d.hoist {
                            Some(h) => {
                                lemma_hoist_target_stable(before, t1, scope as int, h@);
                                let x = hoist_target(t1, scope as int, h@);
                                let l = t1.scopes@[x].hoisted_definitions@.len() - 1;
                                assert(stores_def(t1.scopes@[x].hoisted_definitions@[l], *d, (k + 1) as usize));
                            },
                            None => {
                                let l = t1.scopes@[scope as int].definitions@.len() - 1;
                                assert(stores_def(t1.scopes@[scope as int].definitions@[l], *d, (k + 1) as usize));
                            },
                        }
                    }
                }
            }
            i = i + 1;
        }
        *di = i;
        Ok(())
    }

    /// Drains into `scope` the pending references, in sweep order, whose
    /// start byte lies below `limit`.
    #[verifier::spinoff_prover]
    fn add_refs_while(
        &mut self,
        source: &[u8],
        c: &Captures,
        dorder: &Vec<usize>,
        rorder: &Vec<usize>,
        scope: usize,
        di: usize,
        ri: &mut usize,
        limit: usize,
    ) -> (r: Result<(), LocalsError>)
        requires
            sweep_inv(*old(self), source@, *c, dorder@, rorder@, di as int, *old(ri) as int),
            scope < old(self).tree.scopes@.len(),
            limit <= source@.len(),
        ensures
            same_shape(final(self).tree, old(self).tree),
            extends(old(self).tree, final(self).tree),
            r is Ok ==> *old(ri) <= *final(ri),
            r is Ok ==> forall|k: int|
                *old(ri) <= k < *final(ri) ==> c.references@[rorder@[k] as int].range.start < limit
                    && ref_stored(final(self).tree, scope as int, #[trigger] c.references@[rorder@[k] as int]),
            r is Ok && *final(ri) < rorder@.len() ==> c.references@[rorder@[*final(ri) as int] as int].range.start >= limit,
            r is Err ==> r matches Err(LocalsError::InvalidUtf8 { .. }),
            r matches Err(LocalsError::InvalidUtf8 { start, end }) ==> exists|k: int|
                *old(ri) <= k < rorder@.len() && rorder@[k] < c.references@.len()
                    && c.references@[rorder@[k] as int].range.start < limit
                    && c.references@[rorder@[k] as int].range == (ByteRange { start, end }) && (
                #[trigger] text_of(source@, c.references@[rorder@[k] as int].range)) is None,
            r is Ok ==> sweep_inv(
                *final(self),
                source@,
                *c,
                dorder@,
                rorder@,
                di as int,
                *final(ri) as int,
            ),
    {
        let mut i: usize = *ri;
        let ghost r0 = *ri;
        let ghost t0 = self.tree;
        while i < rorder.len()
            invariant
                sweep_inv(*self, source@, *c, dorder@, rorder@, di as int, i as int),
                scope < self.tree.scopes@.len(),
                same_shape(self.tree, old(self).tree),
                t0 == old(self).tree,
                r0 == *old(ri),
                limit <= source@.len(),
                extends(t0, self.tree),
                r0 <= i,
                forall|k: int|
                    r0 <= k < i ==> c.references@[rorder@[k] as int].range.start < limit
                        && ref_stored(self.tree, scope as int, #[trigger] c.references@[rorder@[k] as int]),
            ensures
                extends(t0, self.tree),
                r0 <= i,
                forall|k: int|
                    r0 <= k < i ==> c.references@[rorder@[k] as int].range.start < limit
                        && ref_stored(self.tree, scope as int, #[trigger] c.references@[rorder@[k] as int]),
                i < rorder@.len() ==> c.references@[rorder@[i as int] as int].range.start >= limit,
                sweep_inv(*self, source@, *c, dorder@, rorder@, di as int, i as int),
                same_shape(self.tree, old(self).tree),
            decreases rorder@.len() - i,
        {
            let j = rorder[i];
            proof {
                let q = rorder@.map_values(|x: usize| x as int);
                assert(0 <= q[i as int] < c.references@.len());
            }
            let d = &c.references[j];
            if d.range.start >= limit {
                break;
            }
            proof {
                assert(in_bounds(c.references@[j as int].range, source@.len()));
            }
            let text = match source_text(source, d.range.start, d.range.end) {
                Some(t) => t,
                None => {
                    assert(text_of(source@, c.references@[j as int].range) is None);
                    assert(c.references@[rorder@[i as int] as int].range.start < limit);
                    assert(text_of(source@, c.references@[rorder@[i as int] as int].range) is None);
                    assert(r0 <= i < rorder@.len());
                    return Err(LocalsError::InvalidUtf8 { start: d.range.start, end: d.range.end });
                },
            };
            let ghost table0 = interned(self.names);
            let name = self.names.intern(text.as_str());
            let ghost table1 = interned(self.names);
            proof {
                lemma_table_grows(table0, table1, text@);
            }
            let reference = Reference { range: d.range, span: d.span, name };
            let ghost before = self.tree;
            let ghost e = reference;
            let ghost n0 = before.scopes@[scope as int].references@.len() as int;
            self.tree.scopes[scope].references.push(reference);
            proof {
                assert forall|x: int| 0 <= x < before.scopes@.len() implies (
                #[trigger] self.tree.scopes@[x]).hoisted_definitions@ == before.scopes@[x].hoisted_definitions@
                    && self.tree.scopes@[x].definitions@ == before.scopes@[x].definitions@
                    && (x != scope ==> self.tree.scopes@[x].references@ == before.scopes@[x].references@) by {
                    if x != scope {
                        assert(self.tree.scopes@[x] == before.scopes@[x]);
                    }
                }
                lemma_defs_located_kept(before, self.tree, c.definitions@, dorder@, self.def_locations@);
                lemma_refs_located_push(before, self.tree, c.references@, rorder@, self.ref_locations@, scope as int, e);
            }
            self.ref_locations = Ghost(self.ref_locations@.push((scope as int, n0)));
            proof {
                assert forall|x: int| 0 <= x < before.scopes@.len() implies (
                #[trigger] self.tree.scopes@[x]).kind@ == before.scopes@[x].kind@
                    && self.tree.scopes@[x].hoisted_definitions@ == before.scopes@[x].hoisted_definitions@ by {
                    if x != scope {
                        assert(self.tree.scopes@[x] == before.scopes@[x]);
                    }
                }
                lemma_hoists_kept(before, self.tree, c.definitions@);
                lemma_names_kept(before, self.tree, table0, table1, source@);
                lemma_ids_kept(before, self.tree, c.definitions@, dorder@, di as int, di as int);
                assert(self.tree.scopes@[scope as int].parent == before.scopes@[scope as int].parent);
                assert forall|x: int| 0 < x < self.tree.scopes@.len() implies ((#[trigger] self.tree.scopes@[x]).parent matches Some(p) && p < x) by {
                    assert(self.tree.scopes@[x].parent == before.scopes@[x].parent);
                }
            }
            proof {
                let t1 = self.tree;
                assert forall|x: int| 0 <= x < before.scopes@.len() implies {
                    &&& (#[trigger] t1.scopes@[x]).parent == before.scopes@[x].parent
                    &&& t1.scopes@[x].range == before.scopes@[x].range
                    &&& t1.scopes@[x].kind@ == before.scopes@[x].kind@
                    &&& before.scopes@[x].hoisted_definitions@.is_prefix_of(t1.scopes@[x].hoisted_definitions@)
                    &&& before.scopes@[x].definitions@.is_prefix_of(t1.scopes@[x].definitions@)
                    &&& before.scopes@[x].references@.is_prefix_of(t1.scopes@[x].references@)
                } by {
                    let (u, v) = (before.scopes@[x], t1.scopes@[x]);
                    if x != scope {
                        assert(v == u);
                    } else {
                        assert(u.references@ == v.references@.subrange(0, u.references@.len() as int));
                    }
                }
                assert(extends(before, t1));
                lemma_extends_trans(t0, before, t1);
                assert forall|k: int|
                    r0 <= k < i + 1 implies c.references@[rorder@[k] as int].range.start < limit
                        && ref_stored(t1, scope as int, #[trigger] c.references@[rorder@[k] as int]) by {
                    if k < i {
                        lemma_ref_stored_kept(before, t1, scope as int, c.references@[rorder@[k] as int]);
                    } else {
                        let l = t1.scopes@[scope as int].references@.len() - 1;
                        assert(stores_ref(t1.scopes@[scope as int].references@[l], *d));
                    }
                }
            }
            i = i + 1;
        }
        *ri = i;
        Ok(())
    }

    /// Builds the scope tree under the root: scopes nest by range, every
    /// definition and reference is drained into the innermost open scope
    /// (definitions with a hoist kind into the matching ancestor), and each
    /// definition is emitted, numbered from 1 in sweep order.
    #[verifier::rlimit(100)]
    #[verifier::spinoff_prover]
    pub fn build_tree(&mut self, source: &[u8], c: &Captures) -> (r: Result<(), LocalsError>)
        requires
            fresh_resolver(*old(self)),
            captures_in_bounds(*c, source@.len()),
            c.definitions@.len() + c.references@.len() + 2 < 0xffff_ffffusize,
        ensures
            (r matches Err(LocalsError::InvalidUtf8 { .. })) <==> has_invalid_text(source@, *c),
            (r matches Err(LocalsError::UnconsumedDefinition { .. })) <==> (!has_invalid_text(source@, *c)
                && has_definition_past_end(source@, *c)),
            r matches Err(LocalsError::UnconsumedDefinition { start }) ==> exists|i: int|
                0 <= i < c.definitions@.len() && #[trigger] c.definitions@[i].range.start == start && start
                    >= source@.len(),
            r is Ok ==> final(self).tree.scopes@[0].range == (ByteRange { start: 0, end: source@.len() as usize }),
            r matches Err(LocalsError::InvalidUtf8 { start, end }) ==> invalid_range(
                source@,
                *c,
                ByteRange { start, end },
            ),
            r is Ok ==> tree_wf(final(self).tree),
            r is Ok ==> scopes_nest(final(self).tree),
            r is Ok ==> children_ok(final(self).tree),
            r is Ok ==> final(self).tree.scopes@.len() == c.scopes@.len() + 1,
            r is Ok ==> final(self).definition_id_supply == c.definitions@.len(),
            r is Ok ==> names_match(final(self).tree, interned(final(self).names), source@),
            r is Ok ==> distinct_entries(interned(final(self).names)),
            r is Ok ==> hoists_land(final(self).tree, c.definitions@),
            r is Ok ==> captures_stored(final(self).tree, *c),
            r is Ok ==> definitions_emitted(
                final(self).occurrences@,
                final(self).definition_start_bytes@,
                c.definitions@,
            ),
    {
        let sorder = scope_order(&c.scopes);
        let dorder = definition_order(&c.definitions);
        let rorder = reference_order(&c.references);
        let mut di: usize = 0;
        let mut ri: usize = 0;
        let mut cur: usize = 0;
        let mut si: usize = 0;
        let ghost mut dplace: Seq<int> = Seq::empty();
        let ghost mut rplace: Seq<int> = Seq::empty();
        self.tree.scopes.push(Scope::new(String::new(), ByteRange { start: 0, end: source.len() }, None));
        proof {
            assert(source@.len() == source.len());
        }
        while si < sorder.len()
            invariant
                sweep_inv(*self, source@, *c, dorder@, rorder@, di as int, ri as int),
                cur < self.tree.scopes@.len(),
                dplace.len() == di,
                rplace.len() == ri,
                defs_placed(self.tree, c.definitions@, dorder@, dplace),
                refs_placed(self.tree, c.references@, rorder@, rplace),
                si <= sorder@.len() == c.scopes@.len(),
                sorted_order(sorder@, c.scopes@.len(), scope_key(c.scopes@)),
                self.tree.scopes@.len() == si + 1,
                self.tree.scopes@[0].range == (ByteRange { start: 0, end: source@.len() as usize }),
                forall|x: int|
                    1 <= x <= si ==> (#[trigger] self.tree.scopes@[x]).range == c.scopes@[sorder@[x - 1] as int].range,
                scopes_nest(self.tree),
                children_ok(self.tree),
                open_inv(self.tree, *c, sorder@, dorder@, rorder@, di as int, ri as int, cur as int, dplace, rplace),
            decreases sorder@.len() - si,
        {
            proof {
                let q = sorder@.map_values(|x: usize| x as int);
                assert(0 <= q[si as int] < c.scopes@.len());
            }
            let sc = &c.scopes[sorder[si]];
            let ghost shape0 = self.tree;
            proof {
                if laminar(c.scopes@) && sc.range.start < sc.range.end {
                    assert forall|y: int| cur < y < self.tree.scopes@.len() implies !range_contains(
                        #[trigger] srange(*c, sorder@, y),
                        sc.range,
                    ) by {
                        if anc(self.tree, y, cur as int) {
                            lemma_anc_below(self.tree, y, cur as int);
                        }
                    }
                }
            }
            while cur != 0 && sc.range.end > self.tree.scopes[cur].range.end
                invariant
                    sweep_inv(*self, source@, *c, dorder@, rorder@, di as int, ri as int),
                    cur < self.tree.scopes@.len(),
                    dplace.len() == di,
                    rplace.len() == ri,
                    defs_placed(self.tree, c.definitions@, dorder@, dplace),
                    refs_placed(self.tree, c.references@, rorder@, rplace),
                    same_shape(self.tree, shape0),
                    children_ok(self.tree),
                    open_inv(self.tree, *c, sorder@, dorder@, rorder@, di as int, ri as int, cur as int, dplace, rplace),
                    scopes_nest(shape0),
                    shape0.scopes@.len() == si + 1,
                    si < sorder@.len() == c.scopes@.len(),
                    sorted_order(sorder@, c.scopes@.len(), scope_key(c.scopes@)),
                    sc.range == srange(*c, sorder@, si + 1),
                    laminar(c.scopes@) && sc.range.start < sc.range.end ==> forall|y: int|
                        cur < y < self.tree.scopes@.len() ==> !range_contains(#[trigger] srange(*c, sorder@, y), sc.range),
                    captures_in_bounds(*c, source@.len()),
                decreases cur,
            {
                let end = self.tree.scopes[cur].range.end;
                proof {
                    let q = sorder@.map_values(|v: usize| v as int);
                    assert(0 <= q[cur - 1] < c.scopes@.len());
                    assert(in_bounds(c.scopes@[sorder@[cur - 1] as int].range, source@.len()));
                    assert(self.tree.scopes@[cur as int].range == srange(*c, sorder@, cur as int));
                    if laminar(c.scopes@) {
                        lemma_climb_disjoint(*c, sorder@, cur as int, si + 1);
                    }
                }
                let ghost db = di;
                let ghost tb = self.tree;
                match self.add_defs_while(source, c, &dorder, &rorder, cur, &mut di, ri, end) {
                    Ok(()) => {},
                    Err(e) => {
                        return Err(e);
                    },
                }
                proof {
                    lemma_children_same(tb, self.tree);
                    lemma_defs_innermost(tb, *c, sorder@, dorder@, rorder@, db as int, ri as int, di as int, cur as int, dplace, rplace);
                    lemma_open_after_drain(tb, self.tree, *c, sorder@, dorder@, rorder@, db as int, ri as int, di as int, ri as int, cur as int, dplace + Seq::new((di - db) as nat, |_i: int| cur as int), rplace);
                    lemma_placed_kept(tb, self.tree, *c, dorder@, rorder@, dplace, rplace);
                    lemma_defs_placed_append(self.tree, c.definitions@, dorder@, dplace, cur as int, di as int);
                    dplace = dplace + Seq::new((di - dplace.len()) as nat, |_i: int| cur as int);
                }
                let ghost rb = ri;
                let ghost tb = self.tree;
                match self.add_refs_while(source, c, &dorder, &rorder, cur, di, &mut ri, end) {
                    Ok(()) => {},
                    Err(e) => {
                        return Err(e);
                    },
                }
                proof {
                    lemma_children_same(tb, self.tree);
                    lemma_refs_innermost(tb, *c, sorder@, dorder@, rorder@, di as int, rb as int, ri as int, cur as int, dplace, rplace);
                    lemma_open_after_drain(tb, self.tree, *c, sorder@, dorder@, rorder@, di as int, rb as int, di as int, ri as int, cur as int, dplace, rplace + Seq::new((ri - rb) as nat, |_i: int| cur as int));
                    lemma_placed_kept(tb, self.tree, *c, dorder@, rorder@, dplace, rplace);
                    lemma_refs_placed_append(self.tree, c.references@, rorder@, rplace, cur as int, ri as int);
                    rplace = rplace + Seq::new((ri - rplace.len()) as nat, |_i: int| cur as int);
                }
                match self.tree.scopes[cur].parent {
                    Some(p) => {
                        proof {
                            assert(self.tree.scopes@[cur as int].range == shape0.scopes@[cur as int].range);
                            assert(self.tree.scopes@[p as int].range == shape0.scopes@[p as int].range);
                            assert(shape0.scopes@[cur as int].parent == Some(p));
                        if laminar(c.scopes@) && sc.range.start < sc.range.end {
                            assert forall|y: int| p < y < self.tree.scopes@.len() implies !range_contains(
                                #[trigger] srange(*c, sorder@, y),
                                sc.range,
                            ) by {
                                if y < cur && anc(self.tree, y, cur as int) {
                                    assert(anc(self.tree, y, cur as int) == anc(self.tree, y, p as int));
                                    lemma_anc_below(self.tree, y, p as int);
                                }
                            }
                        }
                            let q = sorder@.map_values(|v: usize| v as int);
                            assert(0 <= q[cur - 1] < c.scopes@.len());
                            assert(in_bounds(c.scopes@[sorder@[cur - 1] as int].range, source@.len()));
                            assert(self.tree.scopes@[cur as int].range == srange(*c, sorder@, cur as int));
                            lemma_open_climb(self.tree, *c, sorder@, dorder@, rorder@, di as int, ri as int, cur as int, p as int, dplace, rplace);
                        }
                        cur = p;
                    },

                    None => {
                        assert(false);
                    },
                }
            }
            let ghost mid = self.tree;
            proof {
                let x = sorder@[si as int] as int;
                assert(in_bounds(c.scopes@[x].range, source@.len()));
                assert(mid.scopes@[cur as int].range == shape0.scopes@[cur as int].range);
                if cur != 0 {
                    let y = sorder@[cur - 1] as int;
                    assert(shape0.scopes@[cur as int].range == c.scopes@[y].range);
                    let q = sorder@.map_values(|v: usize| v as int);
                    assert(0 <= q[cur - 1] < c.scopes@.len());
                    assert(cur - 1 < si);
                    let a = scope_key(c.scopes@)(sorder@[cur - 1] as int);
                    let b = scope_key(c.scopes@)(sorder@[si as int] as int);
                    assert(a.0 < b.0 || (a.0 == b.0 && (a.1 < b.1 || (a.1 == b.1 && sorder@[cur - 1] < sorder@[si as int]))));
                } else {
                    assert(mid.scopes@[0].range == shape0.scopes@[0].range);
                    assert(source@.len() == source.len());
                }
                assert(range_contains(mid.scopes@[cur as int].range, sc.range));
            }
            let start = sc.range.start;
            proof {
                assert(sc.range == srange(*c, sorder@, si + 1));
                assert(in_bounds(sc.range, source@.len()));
            }
            let ghost db = di;
            let ghost tb = self.tree;
            match self.add_defs_while(source, c, &dorder, &rorder, cur, &mut di, ri, start) {
                Ok(()) => {},
                Err(e) => {
                    return Err(e);
                },
            }
            proof {
                lemma_children_same(tb, self.tree);
                lemma_defs_innermost(tb, *c, sorder@, dorder@, rorder@, db as int, ri as int, di as int, cur as int, dplace, rplace);
                lemma_open_after_drain(tb, self.tree, *c, sorder@, dorder@, rorder@, db as int, ri as int, di as int, ri as int, cur as int, dplace + Seq::new((di - db) as nat, |_i: int| cur as int), rplace);
                lemma_placed_kept(tb, self.tree, *c, dorder@, rorder@, dplace, rplace);
                lemma_defs_placed_append(self.tree, c.definitions@, dorder@, dplace, cur as int, di as int);
                dplace = dplace + Seq::new((di - dplace.len()) as nat, |_i: int| cur as int);
            }
            let ghost rb = ri;
            let ghost tb = self.tree;
            match self.add_refs_while(source, c, &dorder, &rorder, cur, di, &mut ri, start) {
                Ok(()) => {},
                Err(e) => {
                    return Err(e);
                },
            }
            proof {
                lemma_children_same(tb, self.tree);
                lemma_refs_innermost(tb, *c, sorder@, dorder@, rorder@, di as int, rb as int, ri as int, cur as int, dplace, rplace);
                lemma_open_after_drain(tb, self.tree, *c, sorder@, dorder@, rorder@, di as int, rb as int, di as int, ri as int, cur as int, dplace, rplace + Seq::new((ri - rb) as nat, |_i: int| cur as int));
                lemma_placed_kept(tb, self.tree, *c, dorder@, rorder@, dplace, rplace);
                lemma_refs_placed_append(self.tree, c.references@, rorder@, rplace, cur as int, ri as int);
                rplace = rplace + Seq::new((ri - rplace.len()) as nat, |_i: int| cur as int);
            }
            proof {
                assert(self.tree.scopes@[cur as int].range == mid.scopes@[cur as int].range);
                assert(range_contains(self.tree.scopes@[cur as int].range, sc.range));
                assert forall|x: int| 0 < x < self.tree.scopes@.len() implies match (#[trigger] self.tree.scopes@[x]).parent {
                    Some(p) => range_contains(self.tree.scopes@[p as int].range, self.tree.scopes@[x].range),
                    None => true,
                } by {
                    assert(self.tree.scopes@[x].parent == mid.scopes@[x].parent);
                    assert(self.tree.scopes@[x].range == mid.scopes@[x].range);
                    assert(mid.scopes@[x].parent == shape0.scopes@[x].parent);
                    assert(mid.scopes@[x].range == shape0.scopes@[x].range);
                    if let Some(p) = shape0.scopes@[x].parent {
                        assert(self.tree.scopes@[p as int].range == mid.scopes@[p as int].range);
                        assert(mid.scopes@[p as int].range == shape0.scopes@[p as int].range);
                    }
                }
            }
            let idx = self.tree.scopes.len();
            let ghost before = self.tree;
            self.tree.scopes.push(Scope::new(sc.kind.clone(), sc.range, Some(cur)));
            self.tree.scopes[cur].children.push(idx);
            proof {
                assert(self.tree.scopes@.len() == self.tree.scopes.len());
                assert forall|y: int| 0 <= y < before.scopes@.len() implies (#[trigger] self.tree.scopes@[y]).parent
                    == before.scopes@[y].parent && (y != cur ==> self.tree.scopes@[y].children@
                    == before.scopes@[y].children@) by {
                    if y != cur {
                        assert(self.tree.scopes@[y] == before.scopes@[y]);
                    }
                }
                lemma_children_push(before, self.tree, cur as int);
                assert forall|x: int| 0 <= x < before.scopes@.len() implies (
                #[trigger] self.tree.scopes@[x]).hoisted_definitions@ == before.scopes@[x].hoisted_definitions@
                    && self.tree.scopes@[x].definitions@ == before.scopes@[x].definitions@
                    && self.tree.scopes@[x].references@ == before.scopes@[x].references@ by {
                    if x != cur {
                        assert(self.tree.scopes@[x] == before.scopes@[x]);
                    }
                }
                assert forall|x: int| before.scopes@.len() <= x < self.tree.scopes@.len() implies (
                #[trigger] self.tree.scopes@[x]).hoisted_definitions@.len() == 0
                    && self.tree.scopes@[x].definitions@.len() == 0 && self.tree.scopes@[x].references@.len() == 0 by {}
                lemma_defs_located_kept(before, self.tree, c.definitions@, dorder@, self.def_locations@);
                lemma_refs_located_kept(before, self.tree, c.references@, rorder@, self.ref_locations@);
                assert forall|x: int| 0 < x < self.tree.scopes@.len() implies ((#[trigger] self.tree.scopes@[x]).parent matches Some(p) && p < x) by {
                    if x < idx {
                        assert(self.tree.scopes@[x].parent == before.scopes@[x].parent);
                    }
                }
                assert(self.tree.scopes@[0].parent == before.scopes@[0].parent);
                assert(self.tree.scopes@[0].range == before.scopes@[0].range);
                assert forall|x: int| 0 <= x < before.scopes@.len() implies (
                #[trigger] self.tree.scopes@[x]).kind@ == before.scopes@[x].kind@
                    && self.tree.scopes@[x].hoisted_definitions@ == before.scopes@[x].hoisted_definitions@ by {
                    if x != cur {
                        assert(self.tree.scopes@[x] == before.scopes@[x]);
                    }
                }
                assert forall|x: int| before.scopes@.len() <= x < self.tree.scopes@.len() implies (
                #[trigger] self.tree.scopes@[x]).hoisted_definitions@.len() == 0 by {}
                lemma_hoists_kept(before, self.tree, c.definitions@);
                assert forall|x: int| 0 < x < self.tree.scopes@.len() implies match (#[trigger] self.tree.scopes@[x]).parent {
                    Some(p) => range_contains(self.tree.scopes@[p as int].range, self.tree.scopes@[x].range),
                    None => true,
                } by {
                    if x < idx {
                        assert(self.tree.scopes@[x].parent == before.scopes@[x].parent);
                        assert(self.tree.scopes@[x].range == before.scopes@[x].range);
                        if let Some(p) = before.scopes@[x].parent {
                            assert(self.tree.scopes@[p as int].range == before.scopes@[p as int].range);
                        }
                    } else {
                        assert(self.tree.scopes@[cur as int].range == before.scopes@[cur as int].range);
                    }
                }
                assert forall|x: int| 1 <= x <= si + 1 implies (#[trigger] self.tree.scopes@[x]).range == c.scopes@[sorder@[x - 1] as int].range by {
                    if x < idx {
                        assert(self.tree.scopes@[x].range == before.scopes@[x].range);
                    }
                }
                lemma_names_kept(before, self.tree, interned(self.names), interned(self.names), source@);
                lemma_ids_kept(before, self.tree, c.definitions@, dorder@, di as int, di as int);
                let t = self.tree;
                assert forall|x: int| 0 <= x < before.scopes@.len() implies {
                    &&& (#[trigger] t.scopes@[x]).parent == before.scopes@[x].parent
                    &&& t.scopes@[x].range == before.scopes@[x].range
                    &&& t.scopes@[x].kind@ == before.scopes@[x].kind@
                    &&& before.scopes@[x].hoisted_definitions@.is_prefix_of(t.scopes@[x].hoisted_definitions@)
                    &&& before.scopes@[x].definitions@.is_prefix_of(t.scopes@[x].definitions@)
                    &&& before.scopes@[x].references@.is_prefix_of(t.scopes@[x].references@)
                } by {
                    let (u, v) = (before.scopes@[x], t.scopes@[x]);
                    assert(v.hoisted_definitions@ == u.hoisted_definitions@);
                    assert(v.definitions@ == u.definitions@);
                    assert(v.references@ == u.references@);
                    assert(u.hoisted_definitions@ == v.hoisted_definitions@.subrange(0, u.hoisted_definitions@.len() as int));
                    assert(u.definitions@ == v.definitions@.subrange(0, u.definitions@.len() as int));
                    assert(u.references@ == v.references@.subrange(0, u.references@.len() as int));
                }
                lemma_placed_kept(before, t, *c, dorder@, rorder@, dplace, rplace);
                assert forall|y: int| 0 <= y < before.scopes@.len() implies (#[trigger] t.scopes@[y]).parent
                    == before.scopes@[y].parent && t.scopes@[y].range == before.scopes@[y].range
                    && t.scopes@[y].kind@ == before.scopes@[y].kind@ by {
                    assert(t.scopes@[y].parent == before.scopes@[y].parent);
                }
                lemma_open_push(before, t, *c, sorder@, dorder@, rorder@, di as int, ri as int, cur as int, dplace, rplace);
            }
            cur = idx;
            si = si + 1;
        }
        let ghost shape1 = self.tree;
        loop
            invariant
                sweep_inv(*self, source@, *c, dorder@, rorder@, di as int, ri as int),
                cur < self.tree.scopes@.len(),
                dplace.len() == di,
                rplace.len() == ri,
                defs_placed(self.tree, c.definitions@, dorder@, dplace),
                refs_placed(self.tree, c.references@, rorder@, rplace),
                same_shape(self.tree, shape1),
                children_ok(self.tree),
                open_inv(self.tree, *c, sorder@, dorder@, rorder@, di as int, ri as int, cur as int, dplace, rplace),
                scopes_nest(shape1),
                shape1.scopes@.len() == c.scopes@.len() + 1,
                sorted_order(sorder@, c.scopes@.len(), scope_key(c.scopes@)),
                captures_in_bounds(*c, source@.len()),
                shape1.scopes@[0].range == (ByteRange { start: 0, end: source@.len() as usize }),
            ensures
                same_shape(self.tree, shape1),
                children_ok(self.tree),
                pending_from(*c, dorder@, rorder@, di as int, ri as int, source@.len() as usize),
                open_inv(self.tree, *c, sorder@, dorder@, rorder@, di as int, ri as int, cur as int, dplace, rplace),
                sweep_inv(*self, source@, *c, dorder@, rorder@, di as int, ri as int),
                dplace.len() == di,
                rplace.len() == ri,
                defs_placed(self.tree, c.definitions@, dorder@, dplace),
                refs_placed(self.tree, c.references@, rorder@, rplace)
            decreases cur,
        {
            let limit = if cur == 0 {
                source.len()
            } else {
                self.tree.scopes[cur].range.end
            };
            proof {
                assert(source@.len() == source.len());
                assert(self.tree.scopes@[0].range == shape1.scopes@[0].range);
                if cur != 0 {
                    let q = sorder@.map_values(|v: usize| v as int);
                    assert(0 <= q[cur - 1] < c.scopes@.len());
                    assert(in_bounds(c.scopes@[sorder@[cur - 1] as int].range, source@.len()));
                    assert(self.tree.scopes@[cur as int].range == srange(*c, sorder@, cur as int));
                }
            }
            let ghost db = di;
            let ghost tb = self.tree;
            match self.add_defs_while(source, c, &dorder, &rorder, cur, &mut di, ri, limit) {
                Ok(()) => {},
                Err(e) => {
                    return Err(e);
                },
            }
            proof {
                lemma_children_same(tb, self.tree);
                lemma_defs_innermost(tb, *c, sorder@, dorder@, rorder@, db as int, ri as int, di as int, cur as int, dplace, rplace);
                lemma_open_after_drain(tb, self.tree, *c, sorder@, dorder@, rorder@, db as int, ri as int, di as int, ri as int, cur as int, dplace + Seq::new((di - db) as nat, |_i: int| cur as int), rplace);
                lemma_placed_kept(tb, self.tree, *c, dorder@, rorder@, dplace, rplace);
                lemma_defs_placed_append(self.tree, c.definitions@, dorder@, dplace, cur as int, di as int);
                dplace = dplace + Seq::new((di - dplace.len()) as nat, |_i: int| cur as int);
            }
            let ghost rb = ri;
            let ghost tb = self.tree;
            match self.add_refs_while(source, c, &dorder, &rorder, cur, di, &mut ri, limit) {
                Ok(()) => {},
                Err(e) => {
                    return Err(e);
                },
            }
            proof {
                lemma_children_same(tb, self.tree);
                lemma_refs_innermost(tb, *c, sorder@, dorder@, rorder@, di as int, rb as int, ri as int, cur as int, dplace, rplace);
                lemma_open_after_drain(tb, self.tree, *c, sorder@, dorder@, rorder@, di as int, rb as int, di as int, ri as int, cur as int, dplace, rplace + Seq::new((ri - rb) as nat, |_i: int| cur as int));
                lemma_placed_kept(tb, self.tree, *c, dorder@, rorder@, dplace, rplace);
                lemma_refs_placed_append(self.tree, c.references@, rorder@, rplace, cur as int, ri as int);
                rplace = rplace + Seq::new((ri - rplace.len()) as nat, |_i: int| cur as int);
            }
            if cur == 0 {
                assert(self.tree.scopes@[0].range.end == source@.len());
                break;
            }
            match self.tree.scopes[cur].parent {
                Some(p) => {
                    proof {
                        assert(self.tree.scopes@[cur as int].range == shape1.scopes@[cur as int].range);
                        assert(self.tree.scopes@[p as int].range == shape1.scopes@[p as int].range);
                        assert(shape1.scopes@[cur as int].parent == Some(p));
                        let q = sorder@.map_values(|v: usize| v as int);
                        assert(0 <= q[cur - 1] < c.scopes@.len());
                        assert(in_bounds(c.scopes@[sorder@[cur - 1] as int].range, source@.len()));
                        assert(self.tree.scopes@[cur as int].range == srange(*c, sorder@, cur as int));
                        lemma_open_climb(self.tree, *c, sorder@, dorder@, rorder@, di as int, ri as int, cur as int, p as int, dplace, rplace);
                    }
                    cur = p;
                },

                None => {
                    assert(false);
                },
            }
        }
        proof {
            let q = dorder@.map_values(|x: usize| x as int);
            let qr = rorder@.map_values(|x: usize| x as int);
            assert forall|i: int|
                0 <= i < c.definitions@.len() && c.definitions@[i].range.start < source@.len() implies (
            #[trigger] text_of(source@, c.definitions@[i].range)) is Some by {
                assert(q.contains(i));
                let k = choose|k: int| 0 <= k < q.len() && q[k] == i;
                if k >= di {
                    lemma_pending_mono(*c, dorder@, rorder@, di as int, ri as int, k, ri as int, source@.len() as usize);
                }
                assert(text_of(source@, c.definitions@[dorder@[k] as int].range) is Some);
            }
            assert forall|i: int|
                0 <= i < c.references@.len() && c.references@[i].range.start < source@.len() implies (
            #[trigger] text_of(source@, c.references@[i].range)) is Some by {
                assert(qr.contains(i));
                let k = choose|k: int| 0 <= k < qr.len() && qr[k] == i;
                if k >= ri {
                    lemma_pending_mono(*c, dorder@, rorder@, di as int, ri as int, di as int, k, source@.len() as usize);
                }
                assert(text_of(source@, c.references@[rorder@[k] as int].range) is Some);
            }
            assert(!has_invalid_text(source@, *c));
        }
        if di < dorder.len() {
            proof {
                let q = dorder@.map_values(|x: usize| x as int);
                assert(0 <= q[di as int] < c.definitions@.len());
                assert(has_definition_past_end(source@, *c));
            }
            return Err(LocalsError::UnconsumedDefinition { start: c.definitions[dorder[di]].range.start });
        }
        proof {
            let q = dorder@.map_values(|x: usize| x as int);
            assert forall|i: int| 0 <= i < c.definitions@.len() implies #[trigger] c.definitions@[i].range.start
                < source@.len() by {
                assert(q.contains(i));
                let k = choose|k: int| 0 <= k < q.len() && q[k] == i;
                assert(c.definitions@[dorder@[k] as int].range.start < source@.len());
            }
            assert(!has_definition_past_end(source@, *c));
            assert(self.tree.scopes@[0].range == shape1.scopes@[0].range);
        }
        proof {
            assert forall|x: int| 0 < x < self.tree.scopes@.len() implies match (#[trigger] self.tree.scopes@[x]).parent {
                Some(p) => range_contains(self.tree.scopes@[p as int].range, self.tree.scopes@[x].range),
                None => true,
            } by {
                assert(self.tree.scopes@[x].parent == shape1.scopes@[x].parent);
                assert(self.tree.scopes@[x].range == shape1.scopes@[x].range);
                if let Some(p) = shape1.scopes@[x].parent {
                    assert(self.tree.scopes@[p as int].range == shape1.scopes@[p as int].range);
                }
            }
            assert(definitions_emitted(self.occurrences@, self.definition_start_bytes@, c.definitions@));
            assert(self.tree.scopes@.len() == c.scopes@.len() + 1);
            if laminar(c.scopes@) {
                assert forall|k: int| 0 <= k < dplace.len() implies #[trigger] dplace[k] == innermost(
                    self.tree,
                    c.definitions@[dorder@[k] as int].range.start,
                ) by {
                    lemma_innermost_matches(self.tree, *c, sorder@, c.definitions@[dorder@[k] as int].range.start, c.scopes@.len() + 1 as int);
                }
                assert forall|k: int| 0 <= k < rplace.len() implies #[trigger] rplace[k] == innermost(
                    self.tree,
                    c.references@[rorder@[k] as int].range.start,
                ) by {
                    lemma_innermost_matches(self.tree, *c, sorder@, c.references@[rorder@[k] as int].range.start, c.scopes@.len() + 1 as int);
                }
            }
            lemma_lists_sorted(self.tree, *c, dorder@, rorder@, self.def_locations@, self.ref_locations@, di as int);
            assert(captures_stored_with(
                self.tree,
                *c,
                sorder@,
                dorder@,
                rorder@,
                dplace,
                rplace,
                self.def_locations@,
                self.ref_locations@,
            ));
            assert(captures_stored(self.tree, *c));
        }
        Ok(())
    }
}

} // verus!
